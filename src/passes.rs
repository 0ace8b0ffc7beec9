use vstd::prelude::*;
use vstd::string::StrSliceExecFns;

verus! {

/// What follows the last `:` of a path, or the whole path if it has none.
pub open spec fn last_segment(s: Seq<char>) -> Seq<char>
    decreases s.len(),
{
    if s.len() == 0 {
        s
    } else if s.last() == ':' {
        Seq::empty()
    } else {
        last_segment(s.drop_last()).push(s.last())
    }
}

proof fn lemma_last_segment_free(s: Seq<char>)
    ensures
        !last_segment(s).contains(':'),
    decreases s.len(),
{
    if s.len() > 0 && s.last() != ':' {
        lemma_last_segment_free(s.drop_last());
        let t = last_segment(s.drop_last());
        if t.push(s.last()).contains(':') {
            let k = choose|k: int| 0 <= k < t.push(s.last()).len() && t.push(s.last())[k] == ':';
            if k < t.len() {
                assert(t[k] == ':');
            }
        }
    }
}

/// A default name for a pass: the last segment of the path of its type,
/// which holds no `:`.
pub fn default_name(name: &str) -> (r: String)
    ensures
        r@ == last_segment(name@),
        !r@.contains(':'),
{
    proof {
        lemma_last_segment_free(name@);
    }
    let n = name.unicode_len();
    let mut i: usize = n;
    assert(name@.take(n as int) == name@);
    assert(name@.subrange(n as int, n as int) =~= Seq::<char>::empty());
    while i > 0 && name.get_char(i - 1) != ':'
        invariant
            i <= n,
            n == name@.len(),
            last_segment(name@) =~= last_segment(name@.take(i as int)) + name@.subrange(i as int, n as int),
        decreases i,
    {
        let c = name.get_char(i - 1);
        proof {
            let t = name@.take(i as int);
            assert(t.drop_last() == name@.take(i - 1));
            assert(t.last() == c);
            assert(name@.subrange(i - 1, n as int) =~= seq![c] + name@.subrange(i as int, n as int));
            assert(last_segment(t) == last_segment(name@.take(i - 1)).push(c));
            assert(last_segment(name@.take(i - 1)).push(c) + name@.subrange(i as int, n as int)
                =~= last_segment(name@.take(i - 1)) + name@.subrange(i - 1, n as int));
        }
        i = i - 1;
    }
    proof {
        if i == 0 {
            assert(name@.take(0) =~= Seq::<char>::empty());
        } else {
            assert(name@.take(i as int).last() == ':');
        }
        assert(last_segment(name@.take(i as int)) =~= Seq::<char>::empty());
    }
    name.substring_char(i, n).to_owned()
}

} // verus!
