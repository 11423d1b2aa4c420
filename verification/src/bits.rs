use vstd::prelude::*;

verus! {

/// An ordered bit vector used as a sort and grouping key.  Comparison reads
/// from the last bit down: the highest position decides.
#[derive(Debug)]
pub struct Bits {
    pub bits: Vec<bool>,
}

impl View for Bits {
    type V = Seq<bool>;

    open spec fn view(&self) -> Seq<bool> {
        self.bits@
    }
}

/// Compares the first k bits of two equally long vectors, the position
/// k-1 weighing most: negative when a is smaller, positive when larger.
pub open spec fn bits_cmp_upto(a: Seq<bool>, b: Seq<bool>, k: int) -> int
    decreases k,
{
    if k <= 0 {
        0
    } else if a[k - 1] != b[k - 1] {
        if a[k - 1] {
            1
        } else {
            -1
        }
    } else {
        bits_cmp_upto(a, b, k - 1)
    }
}

/// The comparison of two bit vectors, from the last position down.
pub open spec fn bits_cmp(a: Seq<bool>, b: Seq<bool>) -> int {
    bits_cmp_upto(a, b, a.len() as int)
}

/// The comparison only ever answers -1, 0 or 1, and swapping the sides
/// flips its sign.
pub proof fn lemma_bits_cmp_antisym(a: Seq<bool>, b: Seq<bool>, k: int)
    ensures
        bits_cmp_upto(a, b, k) == -bits_cmp_upto(b, a, k),
        -1 <= bits_cmp_upto(a, b, k) <= 1,
    decreases k,
{
    if k > 0 {
        lemma_bits_cmp_antisym(a, b, k - 1);
    }
}

/// The comparison is transitive.
pub proof fn lemma_bits_cmp_trans(a: Seq<bool>, b: Seq<bool>, c: Seq<bool>, k: int)
    requires
        bits_cmp_upto(a, b, k) <= 0,
        bits_cmp_upto(b, c, k) <= 0,
    ensures
        bits_cmp_upto(a, c, k) <= 0,
        bits_cmp_upto(a, b, k) < 0 || bits_cmp_upto(b, c, k) < 0 ==> bits_cmp_upto(a, c, k) < 0,
    decreases k,
{
    lemma_bits_cmp_antisym(a, b, k);
    lemma_bits_cmp_antisym(b, c, k);
    lemma_bits_cmp_antisym(a, c, k);
    if k > 0 {
        if a[k - 1] == b[k - 1] && b[k - 1] == c[k - 1] {
            lemma_bits_cmp_trans(a, b, c, k - 1);
        }
    }
}

impl Bits {
    /// Whether this key sorts strictly before the other.
    pub fn lt(&self, other: &Bits) -> (r: bool)
        requires
            self@.len() == other@.len(),
        ensures
            r == (bits_cmp(self@, other@) < 0),
    {
        let mut k = self.bits.len();
        while k > 0
            invariant
                k <= self@.len(),
                self@.len() == other@.len(),
                bits_cmp(self@, other@) == bits_cmp_upto(self@, other@, k as int),
            decreases k,
        {
            k = k - 1;
            if self.bits[k] != other.bits[k] {
                if self.bits[k] {
                    return false;
                }
                return true;
            }
        }
        false
    }

    /// Whether this key sorts after the other.
    pub fn gt(&self, other: &Bits) -> (r: bool)
        requires
            self@.len() == other@.len(),
        ensures
            r == (bits_cmp(self@, other@) > 0),
    {
        let r = other.lt(self);
        proof {
            lemma_bits_cmp_antisym(self@, other@, self@.len() as int);
        }
        r
    }
}

} // verus!
