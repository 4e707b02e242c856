//! Splitting a word list into its whitespace-separated tokens.
use vstd::prelude::*;

verus! {

/// ASCII whitespace: space, tab, line feed, form feed, carriage return.
pub open spec fn is_space(b: u8) -> bool {
    b == 32 || b == 9 || b == 10 || b == 12 || b == 13
}

/// The maximal runs of non-whitespace bytes of `s`, in order.
pub open spec fn tokens_of(s: Seq<u8>) -> Seq<Seq<u8>>
    decreases s.len(),
{
    if s.len() == 0 {
        Seq::empty()
    } else {
        let p = s.drop_last();
        let b = s.last();
        let t = tokens_of(p);
        if is_space(b) {
            t
        } else if p.len() == 0 || is_space(p.last()) {
            t.push(seq![b])
        } else {
            t.update(t.len() - 1, t.last().push(b))
        }
    }
}

fn is_space_byte(b: u8) -> (r: bool)
    ensures
        r == is_space(b),
{
    b == 32 || b == 9 || b == 10 || b == 12 || b == 13
}

/// The whitespace-separated tokens of `text`, in order.
pub fn split_tokens(text: &[u8]) -> (r: Vec<Vec<u8>>)
    ensures
        r@.map_values(|w: Vec<u8>| w@) == tokens_of(text@),
{
    let mut out: Vec<Vec<u8>> = Vec::new();
    let mut cur: Vec<u8> = Vec::new();
    let mut i: usize = 0;
    while i < text.len()
        invariant
            i <= text@.len(),
            cur@.len() == 0 <==> (i == 0 || is_space(text@[i - 1])),
            cur@.len() == 0 ==> out@.map_values(|w: Vec<u8>| w@) == tokens_of(text@.take(i as int)),
            cur@.len() > 0 ==> out@.map_values(|w: Vec<u8>| w@).push(cur@) == tokens_of(
                text@.take(i as int),
            ),
        decreases text@.len() - i,
    {
        let ghost s = text@.take(i + 1);
        let ghost before = out@.map_values(|w: Vec<u8>| w@);
        let ghost cur0 = cur@;
        assert(s.drop_last() =~= text@.take(i as int));
        assert(s.last() == text@[i as int]);
        let b = text[i];
        if is_space_byte(b) {
            if cur.len() > 0 {
                out.push(cur);
                cur = Vec::new();
                assert(out@.map_values(|w: Vec<u8>| w@) =~= before.push(cur0));
            }
        } else {
            cur.push(b);
            proof {
                if cur0.len() == 0 {
                    assert(cur@ =~= seq![b]);
                } else {
                    assert(before.push(cur0).update(before.len() as int, cur0.push(b))
                        =~= before.push(cur@));
                }
            }
        }
        i = i + 1;
    }
    assert(text@.take(i as int) =~= text@);
    if cur.len() > 0 {
        let ghost before = out@.map_values(|w: Vec<u8>| w@);
        let ghost cur0 = cur@;
        out.push(cur);
        assert(out@.map_values(|w: Vec<u8>| w@) =~= before.push(cur0));
    }
    out
}

} // verus!
