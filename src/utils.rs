//! The fragment bitset, and helpers on byte buffers.
use vstd::prelude::*;
use vstd::set_lib::*;

use crate::error::TransferError;
use crate::general::{EFT_HEADER_LENGTH, MAX_OFFSET_LENGTH};

verus! {

/// Bit `k` of the word `w`.
pub open spec fn bit_of(w: u32, k: u32) -> bool {
    (w >> k) & 1u32 == 1u32
}

proof fn lemma_bit_or(w: u32, k: u32, j: u32)
    requires
        k < 32,
        j < 32,
    ensures
        bit_of(w | (1u32 << k), j) == (bit_of(w, j) || j == k),
{
    assert(((w | (1u32 << k)) >> j) & 1u32 == 1u32 <==> (((w >> j) & 1u32 == 1u32) || j == k))
        by (bit_vector)
        requires
            k < 32,
            j < 32,
    ;
}

proof fn lemma_bit_zero(j: u32)
    requires
        j < 32,
    ensures
        !bit_of(0u32, j),
{
    assert((0u32 >> j) & 1u32 != 1u32) by (bit_vector);
}

/// A set of up to `MAX_OFFSET_LENGTH` fragment offsets, with an optional
/// declared length.
#[derive(Debug, Copy, Clone)]
pub struct Flags {
    flags: [u32; 10],
    length: Option<usize>,
}

impl Flags {
    spec fn contains(&self, i: int) -> bool {
        0 <= i < MAX_OFFSET_LENGTH && bit_of(self.flags@[i / 32], (i % 32) as u32)
    }

    /// The offsets in the set.
    pub closed spec fn bits(&self) -> Set<int> {
        Set::new(|i: int| self.contains(i))
    }

    /// The declared length, if any.
    pub closed spec fn declared(&self) -> Option<nat> {
        match self.length {
            Some(l) => Some(l as nat),
            None => None,
        }
    }

    /// A length is declared and every offset below it is in the set.
    pub open spec fn all_set(&self) -> bool {
        match self.declared() {
            Some(l) => forall|i: int| 0 <= i < l ==> #[trigger] self.bits().contains(i),
            None => false,
        }
    }

    /// The set holds offsets below `MAX_OFFSET_LENGTH` only, so it is finite.
    pub proof fn lemma_bits_bounded(&self)
        ensures
            forall|i: int| #[trigger] self.bits().contains(i) ==> 0 <= i < MAX_OFFSET_LENGTH,
            self.bits().subset_of(set_int_range(0, MAX_OFFSET_LENGTH as int)),
            self.bits().finite(),
            self.bits().len() <= MAX_OFFSET_LENGTH,
    {
        reveal(Flags::contains);
        lemma_int_range(0, MAX_OFFSET_LENGTH as int);
        lemma_len_subset(self.bits(), set_int_range(0, MAX_OFFSET_LENGTH as int));
    }

    /// An empty set with no declared length.
    pub fn new() -> (r: Self)
        ensures
            r.bits() == Set::<int>::empty(),
            r.declared() is None,
    {
        let r = Flags { flags: [0u32; 10], length: None };
        assert forall|i: int| !r.contains(i) by {
            if 0 <= i < MAX_OFFSET_LENGTH {
                lemma_bit_zero((i % 32) as u32);
            }
        }
        assert(r.bits() =~= Set::<int>::empty());
        r
    }

    /// Declares the length; fails with `Offset` beyond `MAX_OFFSET_LENGTH`.
    pub fn set_length(&mut self, length: usize) -> (r: Result<(), TransferError>)
        ensures
            final(self).bits() == old(self).bits(),
            length <= MAX_OFFSET_LENGTH ==> r is Ok && final(self).declared() == Some(length as nat),
            length > MAX_OFFSET_LENGTH ==> r == Err::<(), _>(TransferError::Offset) && *final(self)
                == *old(self),
    {
        if length > MAX_OFFSET_LENGTH {
            return Err(TransferError::Offset);
        }
        self.length = Some(length);
        assert(final(self).bits() =~= old(self).bits());
        Ok(())
    }

    /// The declared length; fails with `LengthUnset` while none is declared.
    pub fn get_length(&self) -> (r: Result<usize, TransferError>)
        ensures
            match self.declared() {
                Some(l) => r == Ok::<usize, TransferError>(l as usize) && l <= usize::MAX,
                None => r == Err::<usize, _>(TransferError::LengthUnset),
            },
    {
        match self.length {
            Some(length) => Ok(length),
            None => Err(TransferError::LengthUnset),
        }
    }

    /// Adds `access` to the set; fails with `Offset` at or beyond
    /// `MAX_OFFSET_LENGTH`.
    pub fn set(&mut self, access: usize) -> (r: Result<(), TransferError>)
        ensures
            final(self).declared() == old(self).declared(),
            access < MAX_OFFSET_LENGTH ==> r is Ok && final(self).bits() == old(self).bits().insert(
                access as int,
            ),
            access >= MAX_OFFSET_LENGTH ==> r == Err::<(), _>(TransferError::Offset) && *final(self)
                == *old(self),
    {
        if access >= MAX_OFFSET_LENGTH {
            return Err(TransferError::Offset);
        }
        let w = access / 32;
        let k = (access % 32) as u32;
        let old_flags = *self;
        self.flags[w] = self.flags[w] | (1u32 << k);
        proof {
            reveal(Flags::contains);
            assert forall|i: int| #[trigger] self.contains(i) == (old_flags.contains(i) || i == access) by {
                if 0 <= i < MAX_OFFSET_LENGTH {
                    if i / 32 == w as int {
                        lemma_bit_or(old_flags.flags@[w as int], k, (i % 32) as u32);
                    }
                }
            }
            assert(self.bits() =~= old_flags.bits().insert(access as int));
        }
        Ok(())
    }

    /// Whether `access` is in the set; fails with `Offset` at or beyond
    /// `MAX_OFFSET_LENGTH`.
    pub fn isset(&self, access: usize) -> (r: Result<bool, TransferError>)
        ensures
            access < MAX_OFFSET_LENGTH ==> r == Ok::<bool, TransferError>(self.bits().contains(access as int)),
            access >= MAX_OFFSET_LENGTH ==> r == Err::<bool, _>(TransferError::Offset),
    {
        if access >= MAX_OFFSET_LENGTH {
            return Err(TransferError::Offset);
        }
        let w = self.flags[access / 32];
        let k = (access % 32) as u32;
        proof {
            reveal(Flags::contains);
        }
        Ok(((w >> k) & 1u32) == 1u32)
    }

    /// Whether a length is declared and every offset below it is set.
    pub fn isallset(&self) -> (r: bool)
        ensures
            r == self.all_set(),
    {
        match self.length {
            Some(length) => {
                let mut i: usize = 0;
                while i < length
                    invariant
                        i <= length,
                        self.length == Some(length),
                        forall|j: int| 0 <= j < i ==> #[trigger] self.bits().contains(j),
                    decreases length - i,
                {
                    match self.isset(i) {
                        Ok(true) => {},
                        _ => {
                            proof {
                                self.lemma_bits_bounded();
                                assert(!self.bits().contains(i as int));
                            }
                            return false;
                        },
                    }
                    i = i + 1;
                }
                true
            },
            None => false,
        }
    }
}

/// `s` without its trailing NUL bytes.
pub open spec fn strip_nul(s: Seq<u8>) -> Seq<u8>
    decreases s.len(),
{
    if s.len() > 0 && s.last() == 0 {
        strip_nul(s.drop_last())
    } else {
        s
    }
}

/// Removes the trailing NUL bytes of `bytes`.
pub fn rstrip_null(bytes: &mut Vec<u8>)
    ensures
        final(bytes)@ == strip_nul(old(bytes)@),
{
    while bytes.len() > 0 && bytes[bytes.len() - 1] == 0
        invariant
            strip_nul(bytes@) == strip_nul(old(bytes)@),
        decreases bytes.len(),
    {
        bytes.pop();
    }
}

/// The views of a sequence of byte vectors.
pub open spec fn views(v: Seq<Vec<u8>>) -> Seq<Seq<u8>> {
    v.map_values(|b: Vec<u8>| b@)
}

/// `d` cut into consecutive pieces of `size` bytes; the last piece holds
/// what remains and is never empty.
pub open spec fn fragments(d: Seq<u8>, size: nat) -> Seq<Seq<u8>>
    decreases d.len(),
{
    if d.len() == 0 || size == 0 {
        Seq::empty()
    } else if d.len() <= size {
        seq![d]
    } else {
        seq![d.take(size as int)].add(fragments(d.skip(size as int), size))
    }
}

/// Every piece of `fragments(d, size)` holds between one and `size` bytes.
pub proof fn lemma_fragment_sizes(d: Seq<u8>, size: nat)
    ensures
        forall|i: int|
            0 <= i < fragments(d, size).len() ==> 0 < #[trigger] fragments(d, size)[i].len() <= size,
        d.len() > 0 && size > 0 ==> fragments(d, size).len() > 0,
    decreases d.len(),
{
    if d.len() == 0 || size == 0 {
    } else if d.len() <= size {
    } else {
        lemma_fragment_sizes(d.skip(size as int), size);
        let rest = fragments(d.skip(size as int), size);
        assert forall|i: int| 0 <= i < fragments(d, size).len() implies 0 < #[trigger] fragments(
            d,
            size,
        )[i].len() <= size by {
            if i > 0 {
                assert(fragments(d, size)[i] == rest[i - 1]);
            }
        }
    }
}

/// Putting the pieces back together gives the bytes that were cut.
pub proof fn lemma_fragments_flatten(d: Seq<u8>, size: nat)
    requires
        size > 0,
    ensures
        fragments(d, size).flatten() == d,
    decreases d.len(),
{
    if d.len() == 0 {
        assert(d =~= Seq::<u8>::empty());
    } else if d.len() <= size {
        seq![d].lemma_flatten_one_element();
    } else {
        lemma_fragments_flatten(d.skip(size as int), size);
        let f = fragments(d, size);
        assert(f.drop_first() =~= fragments(d.skip(size as int), size));
        assert(d =~= d.take(size as int) + d.skip(size as int));
    }
}

/// A copy of `data[start..end]`.
pub fn copy_range(data: &Vec<u8>, start: usize, end: usize) -> (r: Vec<u8>)
    requires
        start <= end <= data.len(),
    ensures
        r@ == data@.subrange(start as int, end as int),
{
    let mut r: Vec<u8> = Vec::with_capacity(end - start);
    let mut i: usize = start;
    while i < end
        invariant
            start <= i <= end <= data.len(),
            r@ == data@.subrange(start as int, i as int),
        decreases end - i,
    {
        r.push(data[i]);
        i = i + 1;
        assert(r@ =~= data@.subrange(start as int, i as int));
    }
    r
}

/// Appends the bytes of `src` to `out`.
pub fn append_bytes(out: &mut Vec<u8>, src: &Vec<u8>)
    ensures
        final(out)@ == old(out)@ + src@,
{
    let mut i: usize = 0;
    while i < src.len()
        invariant
            i <= src.len(),
            out@ == old(out)@ + src@.take(i as int),
        decreases src.len() - i,
    {
        out.push(src[i]);
        i = i + 1;
        assert(out@ =~= old(out)@ + src@.take(i as int));
    }
    assert(src@.take(src.len() as int) =~= src@);
}

/// Cuts `data` into the payloads of the packets of a file sent with the
/// given `mtu`: pieces of `mtu - EFT_HEADER_LENGTH` bytes, the last one
/// shorter when the size does not divide evenly. An empty `data` gives no
/// piece.
pub fn split_fragments(data: &Vec<u8>, mtu: usize) -> (r: Vec<Vec<u8>>)
    requires
        mtu > EFT_HEADER_LENGTH,
    ensures
        views(r@) == fragments(data@, (mtu - EFT_HEADER_LENGTH) as nat),
{
    let size: usize = mtu - EFT_HEADER_LENGTH;
    let ghost f = fragments(data@, size as nat);
    let mut r: Vec<Vec<u8>> = Vec::new();
    let mut start: usize = 0;
    assert(data@.skip(0) =~= data@);
    assert(views(r@) =~= Seq::<Seq<u8>>::empty());
    while start < data.len()
        invariant
            size > 0,
            start <= data.len(),
            f == fragments(data@, size as nat),
            f == views(r@) + fragments(data@.skip(start as int), size as nat),
        decreases data.len() - start,
    {
        let rest = data.len() - start;
        let end: usize = if rest <= size { data.len() } else { start + size };
        let piece = copy_range(data, start, end);
        proof {
            let tail = data@.skip(start as int);
            if rest <= size {
                assert(piece@ =~= tail);
                assert(data@.skip(end as int) =~= Seq::<u8>::empty());
            } else {
                assert(piece@ =~= tail.take(size as int));
                assert(tail.skip(size as int) =~= data@.skip(end as int));
            }
            assert(fragments(tail, size as nat) =~= seq![piece@] + fragments(
                data@.skip(end as int),
                size as nat,
            ));
        }
        let ghost before = r@;
        r.push(piece);
        assert(views(r@) =~= views(before) + seq![piece@]);
        start = end;
    }
    assert(fragments(data@.skip(start as int), size as nat) =~= Seq::<Seq<u8>>::empty());
    r
}

/// The concatenation of the first `n` byte vectors of `parts`.
pub fn concat_prefix(parts: &Vec<Vec<u8>>, n: usize) -> (r: Vec<u8>)
    requires
        n <= parts.len(),
    ensures
        r@ == views(parts@).take(n as int).flatten(),
{
    let mut r: Vec<u8> = Vec::new();
    let mut i: usize = 0;
    while i < n
        invariant
            i <= n <= parts.len(),
            r@ == views(parts@).take(i as int).flatten(),
        decreases n - i,
    {
        append_bytes(&mut r, &parts[i]);
        proof {
            let v = views(parts@);
            assert(v.take(i + 1) =~= v.take(i as int).push(v[i as int]));
            v.take(i as int).lemma_flatten_push(v[i as int]);
        }
        i = i + 1;
    }
    r
}

} // verus!
