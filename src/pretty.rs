use vstd::prelude::*;
use vstd::string::StrSliceExecFns;

verus! {

/// How source is printed.
#[derive(Clone, Copy, PartialEq, Eq, Structural, Debug)]
pub enum PpSourceMode {
    PpmNormal,
    PpmEveryBodyLoops,
    PpmExpanded,
    PpmIdentified,
    PpmExpandedIdentified,
    PpmExpandedHygiene,
    PpmTyped,
}

/// What is printed: source, the high-level IR (as code or as a tree), or the
/// mid-level IR (as code or as a control-flow graph).
#[derive(Clone, Copy, PartialEq, Eq, Structural, Debug)]
pub enum PpMode {
    PpmSource(PpSourceMode),
    PpmHir(PpSourceMode),
    PpmHirTree(PpSourceMode),
    PpmMir,
    PpmMirCFG,
}

/// An item the user named for printing: by node id or by path.
#[derive(Clone, Debug)]
pub enum UserIdentifiedItem {
    ItemViaNode(u32),
    ItemViaPath(Vec<String>),
}

/// A mode that prints typed source; no parsed mode is of this kind.
pub open spec fn is_typed_source(m: PpMode) -> bool {
    m == PpMode::PpmSource(PpSourceMode::PpmTyped)
}

impl PpMode {
    /// Printing needs the map of the crate's items: always, except for
    /// unexpanded source, which needs it only to find a named item.
    pub fn needs_ast_map(&self, opt_uii: &Option<UserIdentifiedItem>) -> (r: bool)
        requires
            !is_typed_source(*self),
        ensures
            r == match *self {
                PpMode::PpmSource(PpSourceMode::PpmNormal)
                | PpMode::PpmSource(PpSourceMode::PpmEveryBodyLoops)
                | PpMode::PpmSource(PpSourceMode::PpmIdentified) => opt_uii is Some,
                _ => true,
            },
    {
        match *self {
            PpMode::PpmSource(PpSourceMode::PpmNormal)
            | PpMode::PpmSource(PpSourceMode::PpmEveryBodyLoops)
            | PpMode::PpmSource(PpSourceMode::PpmIdentified) => opt_uii.is_some(),
            _ => true,
        }
    }

    /// Printing needs the analysis results: only the mid-level IR modes.
    pub fn needs_analysis(&self) -> (r: bool)
        ensures
            r == (*self == PpMode::PpmMir || *self == PpMode::PpmMirCFG),
    {
        match *self {
            PpMode::PpmMir | PpMode::PpmMirCFG => true,
            _ => false,
        }
    }
}

/// Why a printing mode name was refused.
#[derive(Clone, Debug)]
pub enum PrettyError {
    /// `name` names no printing mode; the extended set was allowed when
    /// `extended` holds.
    UnknownMode { name: String, extended: bool },
}

/// The mode that `first` names; some modes are only in the extended set.
pub open spec fn mode_named(first: Seq<char>, extended: bool) -> Option<PpMode> {
    if first == "normal"@ {
        Some(PpMode::PpmSource(PpSourceMode::PpmNormal))
    } else if first == "identified"@ {
        Some(PpMode::PpmSource(PpSourceMode::PpmIdentified))
    } else if first == "everybody_loops"@ && extended {
        Some(PpMode::PpmSource(PpSourceMode::PpmEveryBodyLoops))
    } else if first == "expanded"@ {
        Some(PpMode::PpmSource(PpSourceMode::PpmExpanded))
    } else if first == "expanded,identified"@ {
        Some(PpMode::PpmSource(PpSourceMode::PpmExpandedIdentified))
    } else if first == "expanded,hygiene"@ {
        Some(PpMode::PpmSource(PpSourceMode::PpmExpandedHygiene))
    } else if !extended {
        None
    } else if first == "hir"@ {
        Some(PpMode::PpmHir(PpSourceMode::PpmNormal))
    } else if first == "hir,identified"@ {
        Some(PpMode::PpmHir(PpSourceMode::PpmIdentified))
    } else if first == "hir,typed"@ {
        Some(PpMode::PpmHir(PpSourceMode::PpmTyped))
    } else if first == "hir-tree"@ {
        Some(PpMode::PpmHirTree(PpSourceMode::PpmNormal))
    } else if first == "mir"@ {
        Some(PpMode::PpmMir)
    } else if first == "mir-cfg"@ {
        Some(PpMode::PpmMirCFG)
    } else {
        None
    }
}

/// The position of the first `c` in `s` from `k` on, or `s.len()`.
pub open spec fn find_char(s: Seq<char>, c: char, k: int) -> int
    decreases s.len() - k,
{
    if k < 0 || k >= s.len() {
        s.len() as int
    } else if s[k] == c {
        k
    } else {
        find_char(s, c, k + 1)
    }
}

/// The segments of `s` between the separators `::`, left to right, where
/// the current segment began at `start` and the scan has reached `k`.
pub open spec fn split_from(s: Seq<char>, start: int, k: int) -> Seq<Seq<char>>
    decreases s.len() - k,
{
    if k < 0 || k + 1 >= s.len() {
        seq![s.subrange(start, s.len() as int)]
    } else if s[k] == ':' && s[k + 1] == ':' {
        seq![s.subrange(start, k)] + split_from(s, k + 2, k + 2)
    } else {
        split_from(s, start, k + 1)
    }
}

/// The segments of `s` between the separators `::`, left to right.
pub open spec fn path_segments(s: Seq<char>) -> Seq<Seq<char>> {
    split_from(s, 0, 0)
}

/// `s` is a non-empty run of decimal digits.
pub open spec fn all_digits(s: Seq<char>) -> bool {
    s.len() > 0 && forall|i: int| 0 <= i < s.len() ==> '0' <= #[trigger] s[i] && s[i] <= '9'
}

/// The number that the decimal digits `s` write.
pub open spec fn digits_value(s: Seq<char>) -> nat
    decreases s.len(),
{
    if s.len() == 0 {
        0
    } else {
        digits_value(s.drop_last()) * 10 + (s.last() as nat - '0' as nat) as nat
    }
}

/// `s` read as a `u32`: digits, optionally after a `+`, of a value that fits.
pub open spec fn decimal_u32(s: Seq<char>) -> Option<u32> {
    let t = if s.len() > 0 && s[0] == '+' { s.drop_first() } else { s };
    if all_digits(t) && digits_value(t) <= u32::MAX {
        Some(digits_value(t) as u32)
    } else {
        None
    }
}

/// `item` is what `s` names: a node id, when `s` reads as one, else a path.
pub open spec fn names_item(s: Seq<char>, item: UserIdentifiedItem) -> bool {
    match item {
        UserIdentifiedItem::ItemViaNode(n) => decimal_u32(s) == Some(n),
        UserIdentifiedItem::ItemViaPath(parts) => decimal_u32(s) is None
            && parts@.map_values(|p: String| p@) == path_segments(s),
    }
}

fn str_eq(a: &str, b: &str) -> (r: bool)
    ensures
        r == (a@ == b@),
{
    let n = a.unicode_len();
    if n != b.unicode_len() {
        return false;
    }
    let mut i: usize = 0;
    while i < n
        invariant
            n == a@.len(),
            n == b@.len(),
            i <= n,
            forall|k: int| 0 <= k < i ==> a@[k] == b@[k],
        decreases n - i,
    {
        if a.get_char(i) != b.get_char(i) {
            return false;
        }
        i = i + 1;
    }
    assert(a@ =~= b@);
    true
}

fn select_mode(first: &str, extended: bool) -> (r: Option<PpMode>)
    ensures
        r == mode_named(first@, extended),
{
    if str_eq(first, "normal") {
        Some(PpMode::PpmSource(PpSourceMode::PpmNormal))
    } else if str_eq(first, "identified") {
        Some(PpMode::PpmSource(PpSourceMode::PpmIdentified))
    } else if str_eq(first, "everybody_loops") && extended {
        Some(PpMode::PpmSource(PpSourceMode::PpmEveryBodyLoops))
    } else if str_eq(first, "expanded") {
        Some(PpMode::PpmSource(PpSourceMode::PpmExpanded))
    } else if str_eq(first, "expanded,identified") {
        Some(PpMode::PpmSource(PpSourceMode::PpmExpandedIdentified))
    } else if str_eq(first, "expanded,hygiene") {
        Some(PpMode::PpmSource(PpSourceMode::PpmExpandedHygiene))
    } else if !extended {
        None
    } else if str_eq(first, "hir") {
        Some(PpMode::PpmHir(PpSourceMode::PpmNormal))
    } else if str_eq(first, "hir,identified") {
        Some(PpMode::PpmHir(PpSourceMode::PpmIdentified))
    } else if str_eq(first, "hir,typed") {
        Some(PpMode::PpmHir(PpSourceMode::PpmTyped))
    } else if str_eq(first, "hir-tree") {
        Some(PpMode::PpmHirTree(PpSourceMode::PpmNormal))
    } else if str_eq(first, "mir") {
        Some(PpMode::PpmMir)
    } else if str_eq(first, "mir-cfg") {
        Some(PpMode::PpmMirCFG)
    } else {
        None
    }
}

fn parse_u32(s: &str) -> (r: Option<u32>)
    ensures
        r == decimal_u32(s@),
{
    let n = s.unicode_len();
    let start: usize = if n > 0 && s.get_char(0) == '+' { 1 } else { 0 };
    let ghost t = if s@.len() > 0 && s@[0] == '+' { s@.drop_first() } else { s@ };
    assert(t =~= s@.subrange(start as int, n as int));
    if start == n {
        assert(!all_digits(t));
        return None;
    }
    let mut value: u64 = 0;
    let mut i: usize = start;
    while i < n
        invariant
            start <= i <= n,
            n == s@.len(),
            t == s@.subrange(start as int, n as int),
            t == (if s@.len() > 0 && s@[0] == '+' { s@.drop_first() } else { s@ }),
            value as nat == digits_value(s@.subrange(start as int, i as int)),
            value <= u32::MAX,
            forall|k: int| start <= k < i ==> '0' <= #[trigger] s@[k] && s@[k] <= '9',
        decreases n - i,
    {
        let c = s.get_char(i);
        let ghost u = s@.subrange(start as int, i as int + 1);
        assert(u.drop_last() =~= s@.subrange(start as int, i as int));
        if c < '0' || c > '9' {
            proof {
                assert(t[i - start] == c);
                assert(!all_digits(t));
            }
            return None;
        }
        let d = (c as u32 - '0' as u32) as u64;
        value = value * 10 + d;
        proof {
            assert(u.last() == c);
            assert(value as nat == digits_value(u));
        }
        if value > 4294967295 {
            proof {
                assert(u == t.take(i - start + 1));
                lemma_digits_grow(t, (i - start + 1) as int);
            }
            return None;
        }
        i = i + 1;
    }
    assert(s@.subrange(start as int, n as int) == t);
    Some(value as u32)
}

/// A prefix of a run of digits writes no more than the whole run.
proof fn lemma_digits_grow(t: Seq<char>, k: int)
    requires
        0 <= k <= t.len(),
        forall|i: int| 0 <= i < k ==> '0' <= #[trigger] t[i] && t[i] <= '9',
    ensures
        all_digits(t) ==> digits_value(t.take(k)) <= digits_value(t),
    decreases t.len() - k,
{
    if k < t.len() && all_digits(t) {
        lemma_digits_grow(t, k + 1);
        let u = t.take(k + 1);
        assert(u.drop_last() =~= t.take(k));
        assert(u.last() == t[k]);
    }
    if k == t.len() {
        assert(t.take(k) =~= t);
    }
}

proof fn lemma_find_char_bounds(s: Seq<char>, c: char, k: int)
    requires
        0 <= k <= s.len(),
    ensures
        k <= find_char(s, c, k) <= s.len(),
    decreases s.len() - k,
{
    if k < s.len() && s[k] != c {
        lemma_find_char_bounds(s, c, k + 1);
    }
}

fn position_of(s: &str, c: char, from: usize) -> (r: usize)
    requires
        from <= s@.len(),
    ensures
        r as int == find_char(s@, c, from as int),
        from <= r <= s@.len(),
{
    proof {
        lemma_find_char_bounds(s@, c, from as int);
    }
    let n = s.unicode_len();
    let mut i: usize = from;
    while i < n && s.get_char(i) != c
        invariant
            from <= i <= n,
            n == s@.len(),
            find_char(s@, c, from as int) == find_char(s@, c, i as int),
        decreases n - i,
    {
        i = i + 1;
    }
    i
}

impl UserIdentifiedItem {
    /// The item `s` names: a node id when `s` reads as a `u32`, else the
    /// path whose segments `::` separates.
    pub fn parse(s: &str) -> (r: UserIdentifiedItem)
        ensures
            names_item(s@, r),
    {
        if let Some(n) = parse_u32(s) {
            return UserIdentifiedItem::ItemViaNode(n);
        }
        let n = s.unicode_len();
        let mut parts: Vec<String> = Vec::new();
        let mut start: usize = 0;
        let mut k: usize = 0;
        while n > 0 && k < n - 1
            invariant
                start <= k <= n,
                n == s@.len(),
                parts@.map_values(|p: String| p@) + split_from(s@, start as int, k as int) == path_segments(s@),
            decreases n - k,
        {
            if s.get_char(k) == ':' && s.get_char(k + 1) == ':' {
                let ghost before = parts@.map_values(|p: String| p@);
                parts.push(s.substring_char(start, k).to_owned());
                proof {
                    assert(parts@.map_values(|p: String| p@) =~= before.push(s@.subrange(start as int, k as int)));
                    assert(split_from(s@, start as int, k as int) == seq![s@.subrange(start as int, k as int)]
                        + split_from(s@, k + 2, k + 2));
                    assert(parts@.map_values(|p: String| p@) + split_from(s@, k + 2, k + 2)
                        =~= before + split_from(s@, start as int, k as int));
                }
                start = k + 2;
                k = k + 2;
            } else {
                k = k + 1;
            }
        }
        let ghost before = parts@.map_values(|p: String| p@);
        parts.push(s.substring_char(start, n).to_owned());
        proof {
            assert(split_from(s@, start as int, k as int) == seq![s@.subrange(start as int, n as int)]);
            assert(parts@.map_values(|p: String| p@) =~= before + split_from(s@, start as int, k as int));
        }
        UserIdentifiedItem::ItemViaPath(parts)
    }
}

/// The printing mode that `name` selects, and the item that follows an `=`
/// in it, if any. `extended` allows the modes beyond plain source.
pub fn parse_pretty(name: &str, extended: bool) -> (r: Result<(PpMode, Option<UserIdentifiedItem>), PrettyError>)
    ensures
        ({
            let e = find_char(name@, '=', 0);
            let first = name@.subrange(0, e);
            match r {
                Ok((mode, item)) => mode_named(first, extended) == Some(mode) && match item {
                    Some(it) => e < name@.len() && names_item(name@.subrange(e + 1, name@.len() as int), it),
                    None => e == name@.len(),
                },
                Err(PrettyError::UnknownMode { name: n, extended: x }) => mode_named(first, extended) is None
                    && n@ == name@ && x == extended,
            }
        }),
{
    let n = name.unicode_len();
    let e = position_of(name, '=', 0);
    let first = name.substring_char(0, e);
    match select_mode(first, extended) {
        None => Err(PrettyError::UnknownMode { name: name.to_owned(), extended }),
        Some(mode) => {
            if e < n {
                let rest = name.substring_char(e + 1, n);
                Ok((mode, Some(UserIdentifiedItem::parse(rest))))
            } else {
                Ok((mode, None))
            }
        },
    }
}

} // verus!
