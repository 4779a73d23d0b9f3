//! A borrowed view of a byte range, ordered byte-wise.
use std::cmp::Ordering;
use vstd::prelude::*;

verus! {

/// Byte-wise lexicographic order; a proper prefix orders first.
pub open spec fn lex_cmp(a: Seq<u8>, b: Seq<u8>) -> Ordering
    decreases a.len(),
{
    if a.len() == 0 {
        if b.len() == 0 {
            Ordering::Equal
        } else {
            Ordering::Less
        }
    } else if b.len() == 0 {
        Ordering::Greater
    } else if a[0] < b[0] {
        Ordering::Less
    } else if a[0] > b[0] {
        Ordering::Greater
    } else {
        lex_cmp(a.drop_first(), b.drop_first())
    }
}

/// Two sequences compare equal exactly when they are the same.
pub proof fn lemma_lex_cmp_equal(a: Seq<u8>, b: Seq<u8>)
    ensures
        (lex_cmp(a, b) == Ordering::Equal) == (a == b),
    decreases a.len(),
{
    if a.len() > 0 && b.len() > 0 && a[0] == b[0] {
        lemma_lex_cmp_equal(a.drop_first(), b.drop_first());
        if a.drop_first() == b.drop_first() {
            assert(a =~= seq![a[0]] + a.drop_first());
            assert(b =~= seq![b[0]] + b.drop_first());
        }
    } else if a.len() == 0 && b.len() == 0 {
        assert(a =~= b);
    } else if a.len() > 0 && b.len() > 0 {
        assert(a[0] != b[0]);
    } else {
        assert(a.len() != b.len());
    }
}

/// What a UTF-8 decoder that replaces each invalid sequence with U+FFFD
/// makes of `bytes`.
pub uninterp spec fn utf8_lossy(bytes: Seq<u8>) -> Seq<char>;

/// Relies on `String::from_utf8_lossy`: its result depends on the bytes alone,
/// and an empty input gives an empty string.
#[verifier::external_body]
fn decode_utf8_lossy(bytes: &[u8]) -> (r: String)
    ensures
        r@ == utf8_lossy(bytes@),
        bytes@.len() == 0 ==> r@.len() == 0,
{
    String::from_utf8_lossy(bytes).into_owned()
}

#[derive(Clone, Copy, Debug)]
pub struct Slice<'a> {
    data: &'a [u8],
}

impl<'a> Slice<'a> {
    /// The bytes viewed.
    pub closed spec fn bytes(&self) -> Seq<u8> {
        self.data@
    }

    /// A view of no bytes.
    pub fn new_empty() -> (r: Slice<'static>)
        ensures
            r.bytes() == Seq::<u8>::empty(),
    {
        let v: &'static [u8] = &[];
        Slice { data: v }
    }

    /// A view of `data`.
    pub fn new(data: &'a [u8]) -> (r: Self)
        ensures
            r.bytes() == data@,
    {
        Slice { data }
    }

    pub fn len(&self) -> (r: usize)
        ensures
            r == self.bytes().len(),
    {
        self.data.len()
    }

    /// The viewed bytes.
    pub fn raw_data(&self) -> (r: &'a [u8])
        ensures
            r@ == self.bytes(),
    {
        self.data
    }

    /// The viewed bytes.
    pub fn data(&self) -> (r: &'a [u8])
        ensures
            r@ == self.bytes(),
    {
        self.data
    }

    /// Whether no bytes are viewed.
    pub fn empty(&self) -> (r: bool)
        ensures
            r == (self.bytes().len() == 0),
    {
        self.data.len() == 0
    }

    /// View no bytes.
    pub fn clear(&mut self)
        ensures
            final(self).bytes() == Seq::<u8>::empty(),
    {
        let v: &'static [u8] = &[];
        self.data = v;
    }

    /// The byte at `index`.
    pub fn index(&self, index: usize) -> (r: u8)
        requires
            index < self.bytes().len(),
        ensures
            r == self.bytes()[index as int],
    {
        self.data[index]
    }

    /// Drop the first `n` bytes from the view.
    pub fn skip(&mut self, n: usize)
        requires
            n <= old(self).bytes().len(),
        ensures
            final(self).bytes() == old(self).bytes().subrange(n as int, old(self).bytes().len() as int),
    {
        self.data = vstd::slice::slice_subrange(self.data, n, self.data.len());
    }

    /// Whether `x` is a prefix of this view.
    pub fn starts_with(&self, x: &Slice) -> (r: bool)
        ensures
            r == (x.bytes().len() <= self.bytes().len() && self.bytes().subrange(0, x.bytes().len() as int) == x.bytes()),
    {
        let n = x.data.len();
        if n > self.data.len() {
            return false;
        }
        let mut i: usize = 0;
        while i < n
            invariant
                n == x.bytes().len(),
                n <= self.bytes().len(),
                0 <= i <= n,
                self.bytes().subrange(0, i as int) == x.bytes().subrange(0, i as int),
            decreases n - i,
        {
            if self.data[i] != x.data[i] {
                assert(self.bytes().subrange(0, n as int)[i as int] != x.bytes()[i as int]);
                return false;
            }
            assert(self.bytes().subrange(0, i + 1) =~= x.bytes().subrange(0, i + 1)) by {
                assert forall|k: int| 0 <= k < i implies self.bytes()[k] == x.bytes()[k] by {
                    assert(self.bytes().subrange(0, i as int)[k] == x.bytes().subrange(0, i as int)[k]);
                }
            }
            i = i + 1;
        }
        assert(x.bytes().subrange(0, n as int) =~= x.bytes());
        true
    }

    /// Three-way byte-wise comparison.
    pub fn compare(&self, b: &Slice) -> (r: Ordering)
        ensures
            r == lex_cmp(self.bytes(), b.bytes()),
    {
        let min_len = if self.data.len() < b.data.len() { self.data.len() } else { b.data.len() };
        let mut i: usize = 0;
        assert(self.bytes().subrange(0, self.bytes().len() as int) =~= self.bytes());
        assert(b.bytes().subrange(0, b.bytes().len() as int) =~= b.bytes());
        while i < min_len
            invariant
                min_len <= self.bytes().len(),
                min_len <= b.bytes().len(),
                min_len == self.bytes().len() || min_len == b.bytes().len(),
                0 <= i <= min_len,
                lex_cmp(self.bytes(), b.bytes()) == lex_cmp(
                    self.bytes().subrange(i as int, self.bytes().len() as int),
                    b.bytes().subrange(i as int, b.bytes().len() as int),
                ),
            decreases min_len - i,
        {
            let x = self.data[i];
            let y = b.data[i];
            let ghost sa = self.bytes().subrange(i as int, self.bytes().len() as int);
            let ghost sb = b.bytes().subrange(i as int, b.bytes().len() as int);
            assert(sa[0] == x && sb[0] == y);
            if x < y {
                return Ordering::Less;
            }
            if x > y {
                return Ordering::Greater;
            }
            assert(sa.drop_first() =~= self.bytes().subrange(i + 1, self.bytes().len() as int));
            assert(sb.drop_first() =~= b.bytes().subrange(i + 1, b.bytes().len() as int));
            i = i + 1;
        }
        let ghost sa = self.bytes().subrange(i as int, self.bytes().len() as int);
        let ghost sb = b.bytes().subrange(i as int, b.bytes().len() as int);
        if self.data.len() > b.data.len() {
            assert(sb.len() == 0 && sa.len() > 0);
            Ordering::Greater
        } else if self.data.len() < b.data.len() {
            assert(sa.len() == 0 && sb.len() > 0);
            Ordering::Less
        } else {
            assert(sa.len() == 0 && sb.len() == 0);
            Ordering::Equal
        }
    }

    /// The viewed bytes decoded as UTF-8, each invalid sequence replaced by
    /// U+FFFD.
    pub fn to_string(&self) -> (r: String)
        ensures
            r@ == utf8_lossy(self.bytes()),
    {
        decode_utf8_lossy(self.data)
    }
}

impl<'a> PartialEq for Slice<'a> {
    /// Byte-wise equality, through `compare`.
    fn eq(&self, other: &Slice<'a>) -> (r: bool) {
        proof {
            lemma_lex_cmp_equal(self.bytes(), other.bytes());
        }
        match self.compare(other) {
            Ordering::Equal => true,
            _ => false,
        }
    }
}

impl<'a> vstd::std_specs::cmp::PartialEqSpecImpl for Slice<'a> {
    open spec fn obeys_eq_spec() -> bool {
        true
    }

    open spec fn eq_spec(&self, other: &Slice<'a>) -> bool {
        self.bytes() == other.bytes()
    }
}

} // verus!
