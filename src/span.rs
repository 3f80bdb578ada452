//! Byte spans over the source text and term spans over the term arena.
use vstd::prelude::*;
use vstd::string::StringSliceAdditionalSpecFns;
use vstd::utf8::is_char_boundary;

verus! {

/// A byte span: the half-open range `[from, to)` of UTF-8 byte offsets.
#[derive(Debug, Default, Clone, Copy, PartialEq, Eq, Structural, PartialOrd, Ord)]
pub struct BSpan {
    /// inclusive
    pub from: u32,
    /// exclusive
    pub to: u32,
}

/// A term span: the half-open range `[from, to)` of indices into the term arena.
#[derive(Debug, Default, Clone, Copy, PartialEq, Eq, Structural, PartialOrd, Ord)]
pub struct TSpan {
    /// inclusive
    pub from: u32,
    /// exclusive
    pub to: u32,
}

impl BSpan {
    /// A span is well formed when it does not run backwards.
    pub open spec fn wf(self) -> bool {
        self.from <= self.to
    }

    /// `self` lies inside `outer`.
    pub open spec fn within(self, outer: BSpan) -> bool {
        outer.from <= self.from && self.to <= outer.to
    }

    /// The zero-width span at `i`.
    pub fn empty(i: u32) -> (r: Self)
        ensures
            r.from == i,
            r.to == i,
    {
        Self::new(i, i)
    }

    pub fn is_empty(self) -> (r: bool)
        ensures
            r == (self.from == self.to),
    {
        self.from == self.to
    }

    pub fn new(from: u32, to: u32) -> (r: Self)
        ensures
            r.from == from,
            r.to == to,
    {
        BSpan { from, to }
    }

    /// The span of `len` bytes starting at `from`.
    pub fn from_len(from: u32, len: u32) -> (r: Self)
        requires
            from + len <= u32::MAX,
        ensures
            r.from == from,
            r.to == from + len,
    {
        Self::new(from, from + len)
    }

    /// The same span with its start moved to `from`.
    pub fn from(self, from: u32) -> (r: Self)
        ensures
            r.from == from,
            r.to == self.to,
    {
        BSpan { from, to: self.to }
    }

    /// The same span with its end moved to `to`.
    pub fn to(self, to: u32) -> (r: Self)
        ensures
            r.from == self.from,
            r.to == to,
    {
        BSpan { from: self.from, to }
    }

    /// The text that the span covers in `item`.
    pub fn slice<'a>(&self, item: &'a str) -> (r: &'a str)
        requires
            self.from <= self.to <= item.spec_bytes().len(),
            is_char_boundary(item.spec_bytes(), self.from as int),
            is_char_boundary(item.spec_bytes(), self.to as int),
        ensures
            r.spec_bytes() == item.spec_bytes().subrange(self.from as int, self.to as int),
    {
        proof {
            vstd::utf8::encode_utf8_valid_utf8(item@);
        }
        let (head, _) = item.split_at(self.to as usize);
        proof {
            lemma_boundary_in_prefix(item.spec_bytes(), self.from as int, self.to as int);
        }
        let (_, r) = head.split_at(self.from as usize);
        assert(r.spec_bytes() =~= item.spec_bytes().subrange(self.from as int, self.to as int));
        r
    }
}

/// A character boundary of a valid UTF-8 sequence is still one of its prefix up to a later
/// boundary.
proof fn lemma_boundary_in_prefix(bytes: Seq<u8>, i: int, j: int)
    requires
        vstd::utf8::valid_utf8(bytes),
        0 <= i <= j <= bytes.len(),
        is_char_boundary(bytes, i),
        is_char_boundary(bytes, j),
    ensures
        is_char_boundary(bytes.subrange(0, j), i),
    decreases bytes.len(),
{
    vstd::utf8::valid_utf8_split(bytes, j);
    if i == 0 {
    } else {
        let rest = vstd::utf8::pop_first_scalar(bytes);
        let n = vstd::utf8::length_of_first_scalar(bytes);
        let pre = bytes.subrange(0, j);
        reveal_with_fuel(is_char_boundary, 2);
        vstd::utf8::valid_utf8_split(bytes, j);
        assert(vstd::utf8::valid_utf8(rest));
        assert(is_char_boundary(rest, i - n));
        assert(is_char_boundary(rest, j - n));
        assert(pre[0] == bytes[0]);
        assert(vstd::utf8::length_of_first_scalar(pre) == n);
        assert(vstd::utf8::pop_first_scalar(pre) =~= rest.subrange(0, j - n));
        lemma_boundary_in_prefix(rest, i - n, j - n);
        assert(is_char_boundary(vstd::utf8::pop_first_scalar(pre), i - n));
    }
}

impl From<(u32, u32)> for BSpan {
    fn from(value: (u32, u32)) -> (r: Self) {
        BSpan { from: value.0, to: value.1 }
    }
}

impl vstd::std_specs::convert::FromSpecImpl<(u32, u32)> for BSpan {
    open spec fn obeys_from_spec() -> bool {
        true
    }

    open spec fn from_spec(v: (u32, u32)) -> BSpan {
        BSpan { from: v.0, to: v.1 }
    }
}

impl TSpan {
    /// A span is well formed when it does not run backwards.
    pub open spec fn wf(self) -> bool {
        self.from <= self.to
    }

    /// `i` is one of the indices that the span covers.
    pub open spec fn contains(self, i: int) -> bool {
        self.from <= i < self.to
    }

    pub fn is_empty(self) -> (r: bool)
        ensures
            r == (self.from == self.to),
    {
        self.from == self.to
    }

    /// The zero-width span at `i`.
    pub fn empty(i: u32) -> (r: Self)
        ensures
            r.from == i,
            r.to == i,
    {
        Self::new(i, i)
    }

    /// The same span with its start moved to `from`.
    pub fn from(self, from: u32) -> (r: Self)
        ensures
            r.from == from,
            r.to == self.to,
    {
        TSpan { from, to: self.to }
    }

    /// The same span with its end moved to `to`.
    pub fn to(self, to: u32) -> (r: Self)
        ensures
            r.from == self.from,
            r.to == to,
    {
        TSpan { from: self.from, to }
    }

    pub fn new(from: u32, to: u32) -> (r: Self)
        ensures
            r.from == from,
            r.to == to,
    {
        TSpan { from, to }
    }

    /// The span as a range of arena indices.
    pub fn range(&self) -> (r: std::ops::Range<usize>)
        ensures
            r.start == self.from,
            r.end == self.to,
    {
        self.from as usize..self.to as usize
    }
}

impl From<(u32, u32)> for TSpan {
    fn from(value: (u32, u32)) -> (r: Self) {
        TSpan { from: value.0, to: value.1 }
    }
}

impl vstd::std_specs::convert::FromSpecImpl<(u32, u32)> for TSpan {
    open spec fn obeys_from_spec() -> bool {
        true
    }

    open spec fn from_spec(v: (u32, u32)) -> TSpan {
        TSpan { from: v.0, to: v.1 }
    }
}

} // verus!
