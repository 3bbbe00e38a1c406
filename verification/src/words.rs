//! Words in sequence, and the order they sort in.

use crate::order::Ranked;
use vstd::prelude::*;

verus! {

/// Whether one sequence of words sorts before another: at the first place they
/// differ, with a sequence sorting before its own extensions.
pub open spec fn words_lt(a: Seq<u32>, b: Seq<u32>) -> bool
    decreases a.len(),
{
    if b.len() == 0 {
        false
    } else if a.len() == 0 {
        true
    } else {
        a[0] < b[0] || (a[0] == b[0] && words_lt(a.drop_first(), b.drop_first()))
    }
}

/// Of two different sequences exactly one sorts before the other.
pub proof fn lemma_words_total(a: Seq<u32>, b: Seq<u32>)
    ensures
        words_lt(a, b) ==> !words_lt(b, a),
        a == b || words_lt(a, b) || words_lt(b, a),
        words_lt(a, b) ==> a != b,
    decreases a.len(),
{
    if a.len() > 0 && b.len() > 0 {
        lemma_words_total(a.drop_first(), b.drop_first());
        if a[0] == b[0] && a.drop_first() == b.drop_first() {
            assert(a =~= seq![a[0]] + a.drop_first());
            assert(b =~= seq![b[0]] + b.drop_first());
        }
    } else if a.len() == 0 && b.len() == 0 {
        assert(a =~= b);
    }
}

/// Sorting before is transitive.
pub proof fn lemma_words_trans(a: Seq<u32>, b: Seq<u32>, c: Seq<u32>)
    requires
        words_lt(a, b),
        words_lt(b, c),
    ensures
        words_lt(a, c),
    decreases a.len(),
{
    if a.len() > 0 {
        if a[0] == b[0] && b[0] == c[0] {
            lemma_words_trans(a.drop_first(), b.drop_first(), c.drop_first());
        }
    }
}

/// Places that agree do not matter to the order.
pub proof fn lemma_words_skip(a: Seq<u32>, b: Seq<u32>, i: int)
    requires
        0 <= i <= a.len(),
        i <= b.len(),
        forall|j: int| 0 <= j < i ==> a[j] == b[j],
    ensures
        words_lt(a, b) == words_lt(a.skip(i), b.skip(i)),
    decreases i,
{
    if i == 0 {
        assert(a.skip(0) =~= a);
        assert(b.skip(0) =~= b);
    } else {
        lemma_words_skip(a.drop_first(), b.drop_first(), i - 1);
        assert(a.drop_first().skip(i - 1) =~= a.skip(i));
        assert(b.drop_first().skip(i - 1) =~= b.skip(i));
    }
}

/// A sequence of words that sorts.
pub struct Words(pub Vec<u32>);

impl Ranked for Words {
    open spec fn before(a: Words, b: Words) -> bool {
        words_lt(a.0@, b.0@)
    }

    proof fn one_way(a: Words, b: Words) {
        lemma_words_total(a.0@, b.0@);
    }

    proof fn onward(a: Words, b: Words, c: Words) {
        lemma_words_total(a.0@, b.0@);
        lemma_words_total(b.0@, c.0@);
        lemma_words_total(a.0@, c.0@);
        if words_lt(a.0@, b.0@) && words_lt(b.0@, c.0@) {
            lemma_words_trans(a.0@, b.0@, c.0@);
        }
    }

    fn less(&self, other: &Words) -> (b: bool) {
        let n: usize = self.0.len();
        let m: usize = other.0.len();
        let mut i: usize = 0;
        while i < n && i < m
            invariant
                i <= n,
                i <= m,
                n == self.0@.len(),
                m == other.0@.len(),
                forall|j: int| 0 <= j < i ==> self.0@[j] == other.0@[j],
            decreases n - i,
        {
            if self.0[i] != other.0[i] {
                proof {
                    lemma_words_skip(self.0@, other.0@, i as int);
                }
                return self.0[i] < other.0[i];
            }
            i += 1;
        }
        proof {
            lemma_words_skip(self.0@, other.0@, i as int);
        }
        n < m
    }
}

} // verus!
