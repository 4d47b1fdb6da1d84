//! Alphabetical order of names: character by character by code point, a shorter name
//! ahead of a longer one that it begins.
use vstd::prelude::*;

verus! {

/// The code point of a character.
pub open spec fn code(c: char) -> int {
    c as u32 as int
}

/// `a` and `b` have the same code points in their first `i` places.
pub open spec fn same_start(a: Seq<char>, b: Seq<char>, i: int) -> bool {
    forall|j: int| 0 <= j < i ==> code(#[trigger] a[j]) == code(b[j])
}

/// `a` comes no later than `b`.
pub open spec fn name_le(a: Seq<char>, b: Seq<char>) -> bool
    decreases a.len(),
{
    if a.len() == 0 {
        true
    } else if b.len() == 0 {
        false
    } else if code(a[0]) != code(b[0]) {
        code(a[0]) < code(b[0])
    } else {
        name_le(a.drop_first(), b.drop_first())
    }
}

/// Of two names, one comes no later than the other.
pub proof fn lemma_name_le_total(a: Seq<char>, b: Seq<char>)
    ensures
        name_le(a, b) || name_le(b, a),
    decreases a.len(),
{
    if a.len() > 0 && b.len() > 0 && code(a[0]) == code(b[0]) {
        lemma_name_le_total(a.drop_first(), b.drop_first());
    }
}

/// The order is transitive.
pub proof fn lemma_name_le_trans(a: Seq<char>, b: Seq<char>, c: Seq<char>)
    requires
        name_le(a, b),
        name_le(b, c),
    ensures
        name_le(a, c),
    decreases a.len(),
{
    if a.len() > 0 && b.len() > 0 && c.len() > 0 && code(a[0]) == code(b[0]) && code(b[0])
        == code(c[0]) {
        lemma_name_le_trans(a.drop_first(), b.drop_first(), c.drop_first());
    }
}

/// Names that agree on their first `i` code points compare as their rests do.
proof fn lemma_name_le_skip(a: Seq<char>, b: Seq<char>, i: int)
    requires
        0 <= i <= a.len(),
        i <= b.len(),
        same_start(a, b, i),
    ensures
        name_le(a, b) == name_le(a.skip(i), b.skip(i)),
    decreases i,
{
    if i > 0 {
        assert(code(a[0]) == code(b[0]));
        assert forall|j: int| 0 <= j < i - 1 implies code(#[trigger] a.drop_first()[j]) == code(
            b.drop_first()[j],
        ) by {
            assert(code(a[j + 1]) == code(b[j + 1]));
        }
        lemma_name_le_skip(a.drop_first(), b.drop_first(), i - 1);
        assert(a.drop_first().skip(i - 1) =~= a.skip(i));
        assert(b.drop_first().skip(i - 1) =~= b.skip(i));
    } else {
        assert(a.skip(0) =~= a);
        assert(b.skip(0) =~= b);
    }
}

/// Does name `a` come no later than name `b`?
pub fn name_before(a: &str, b: &str) -> (r: bool)
    ensures
        r == name_le(a@, b@),
{
    let la = a.unicode_len();
    let lb = b.unicode_len();
    let mut i: usize = 0;
    while i < la && i < lb
        invariant
            la == a@.len(),
            lb == b@.len(),
            i <= la,
            i <= lb,
            same_start(a@, b@, i as int),
        decreases la - i,
    {
        let ca = a.get_char(i);
        let cb = b.get_char(i);
        if (ca as u32) != (cb as u32) {
            proof {
                lemma_name_le_skip(a@, b@, i as int);
                assert(a@.skip(i as int)[0] == ca);
                assert(b@.skip(i as int)[0] == cb);
            }
            return (ca as u32) < (cb as u32);
        }
        i = i + 1;
    }
    proof {
        lemma_name_le_skip(a@, b@, i as int);
    }
    i == la
}

} // verus!
