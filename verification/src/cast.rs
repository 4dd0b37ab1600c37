//! From a block of unknown type to one of a known type, and back.
use vstd::pervasive::arbitrary;
use vstd::prelude::*;

use crate::allocator::{
    bytes_view, extends, lemma_since, since, BStackRaiiAllocator, Event,
};
use crate::bytes::le_value;
use crate::error::Error;
use crate::handback::CastError;
use crate::layout::{BlockHeader, EightCC};
use crate::owned::{BStackOwned, BStackOwnedSlice};
use crate::range::BStackRange;
use crate::traits::BStackBlock;

verus! {

/// Whether a header, as read from the file, is that of a block of type `T`.
pub open spec fn is_header_of<T: BStackBlock>(b: Seq<u8>) -> bool {
    b.subrange(8, 16) == T::spec_eightcc() && le_value(b.subrange(0, 8)) == T::spec_on_disk_size()
}

/// The conversation that checks the header of the block at `range`: what was found.
pub open spec fn check_talk<T: BStackBlock>(
    range: BStackRange,
    t: Seq<Event>,
    r: Result<bool, Error>,
) -> bool {
    if range.len < 16 {
        t.len() == 0 && r == Err::<bool, Error>(Error::OutOfRange)
    } else {
        &&& t.len() == 1
        &&& t[0] matches Event::Read { off, len, reply }
        &&& off == range.start && len == 16
        &&& r == match reply {
            Err(e) => Err::<bool, Error>(e),
            Ok(b) => Ok(is_header_of::<T>(b)),
        }
    }
}

/// Whether the block at `range` is of type `T`, by its header.
fn check_header<T: BStackBlock, A: BStackRaiiAllocator>(range: BStackRange, a: &mut A) -> (r:
    Result<bool, Error>)
    ensures
        final(a).spec_settings() == old(a).spec_settings(),
        extends(old(a).trace(), final(a).trace()),
        check_talk::<T>(range, since(old(a).trace(), final(a).trace()), r),
{
    let ghost before = a.trace();
    proof {
        lemma_since(before, Seq::empty());
        assert(before + Seq::empty() =~= before);
    }
    if range.len < 16 {
        return Err(Error::OutOfRange);
    }
    let got = a.get(range.start, 16);
    proof {
        let t = seq![Event::Read { off: range.start, len: 16, reply: bytes_view(got) }];
        assert(a.trace() =~= before + t);
        lemma_since(before, t);
    }
    match got {
        Err(e) => Err(e),
        Ok(buf) => {
            let header = BlockHeader::from_bytes(buf.as_slice());
            let mine = T::eightcc();
            Ok(header.tag.same(&mine) && header.size == T::on_disk_size())
        },
    }
}

/// Turning an owner of unknown type into one of a known type.
pub trait BStackCastInto: Sized {
    open spec fn spec_cast_range(&self) -> BStackRange {
        arbitrary()
    }

    /// The typed owner, if the header of the block names `T` and its size. The block is given
    /// back otherwise.
    fn cast_into<T: BStackBlock, A: BStackRaiiAllocator>(self, a: &mut A) -> (r: Result<
        BStackOwned<T>,
        CastError<Self>,
    >)
        ensures
            final(a).spec_settings() == old(a).spec_settings(),
            extends(old(a).trace(), final(a).trace()),
            check_talk::<T>(
                self.spec_cast_range(),
                since(old(a).trace(), final(a).trace()),
                match r {
                    Ok(_) => Ok(true),
                    Err(CastError::Mismatch(_)) => Ok(false),
                    Err(CastError::Io(e, _)) => Err(e),
                },
            ),
            match r {
                Ok(owned) => owned.inner().spec_range() == self.spec_cast_range(),
                Err(e) => e.spec_slice() == self,
            },
    ;
}

impl BStackCastInto for BStackOwnedSlice {
    open spec fn spec_cast_range(&self) -> BStackRange {
        self.range
    }

    fn cast_into<T: BStackBlock, A: BStackRaiiAllocator>(self, a: &mut A) -> (r: Result<
        BStackOwned<T>,
        CastError<Self>,
    >) {
        match check_header::<T, A>(self.range, a) {
            Err(e) => Err(CastError::Io(e, self)),
            Ok(true) => Ok(BStackOwned::from_raw(T::from_range(self.range))),
            Ok(false) => Err(CastError::Mismatch(self)),
        }
    }
}

/// The conversation that checks the tag of the block at `range`, and nothing else of it: what
/// was found.
pub open spec fn tag_talk<T: BStackBlock>(
    range: BStackRange,
    t: Seq<Event>,
    r: Result<bool, Error>,
) -> bool {
    if range.len < 16 || range.start + 8 > u64::MAX {
        t.len() == 0 && r == Err::<bool, Error>(Error::OutOfRange)
    } else {
        &&& t.len() == 1
        &&& t[0] matches Event::Read { off, len, reply }
        &&& off == range.start + 8 && len == 8
        &&& r == match reply {
            Err(e) => Err::<bool, Error>(e),
            Ok(b) => Ok(b == T::spec_eightcc()),
        }
    }
}

/// Whether the block at `range` is of type `T`, by its tag.
fn check_tag<T: BStackBlock, A: BStackRaiiAllocator>(range: BStackRange, a: &mut A) -> (r: Result<
    bool,
    Error,
>)
    ensures
        final(a).spec_settings() == old(a).spec_settings(),
        extends(old(a).trace(), final(a).trace()),
        tag_talk::<T>(range, since(old(a).trace(), final(a).trace()), r),
{
    let ghost before = a.trace();
    proof {
        lemma_since(before, Seq::empty());
        assert(before + Seq::empty() =~= before);
    }
    if range.len < 16 || range.start > u64::MAX - 8 {
        return Err(Error::OutOfRange);
    }
    let off: u64 = range.start + 8;
    let got = a.get(off, 8);
    proof {
        let t = seq![Event::Read { off, len: 8, reply: bytes_view(got) }];
        assert(a.trace() =~= before + t);
        lemma_since(before, t);
    }
    match got {
        Err(e) => Err(e),
        Ok(buf) => {
            let mine = T::eightcc();
            let found = EightCC(
                [buf[0], buf[1], buf[2], buf[3], buf[4], buf[5], buf[6], buf[7]],
            );
            assert(found@ =~= buf@);
            Ok(found.same(&mine))
        },
    }
}

/// Turning a borrowed block of unknown type into one of a known type.
pub trait BStackCastAs {
    open spec fn spec_view_range(&self) -> BStackRange {
        arbitrary()
    }

    /// The typed handle, if the tag of the block names `T`; its size is not looked at.
    fn cast_as<T: BStackBlock, A: BStackRaiiAllocator>(&self, a: &mut A) -> (r: Result<
        Option<T>,
        Error,
    >)
        ensures
            final(a).spec_settings() == old(a).spec_settings(),
            extends(old(a).trace(), final(a).trace()),
            tag_talk::<T>(
                self.spec_view_range(),
                since(old(a).trace(), final(a).trace()),
                match r {
                    Ok(Some(_)) => Ok(true),
                    Ok(None) => Ok(false),
                    Err(e) => Err(e),
                },
            ),
            r matches Ok(Some(h)) ==> h.spec_range() == self.spec_view_range(),
    ;
}

impl BStackCastAs for BStackRange {
    open spec fn spec_view_range(&self) -> BStackRange {
        *self
    }

    fn cast_as<T: BStackBlock, A: BStackRaiiAllocator>(&self, a: &mut A) -> (r: Result<
        Option<T>,
        Error,
    >) {
        match check_tag::<T, A>(*self, a) {
            Err(e) => Err(e),
            Ok(true) => Ok(Some(T::from_range(*self))),
            Ok(false) => Ok(None),
        }
    }
}

/// A block whose header was written for `T` is a `T` to every downcast.
pub proof fn law_cast_accepts_what_was_stamped<T: BStackBlock>(
    range: BStackRange,
    t: Seq<Event>,
    r: Result<bool, Error>,
)
    requires
        range.len >= 16,
        T::spec_eightcc().len() == 8,
        check_talk::<T>(range, t, r),
        t[0]->Read_reply == Ok::<Seq<u8>, Error>(
            BlockHeader::image(T::spec_on_disk_size(), T::spec_eightcc()),
        ),
    ensures
        r == Ok::<bool, Error>(true),
{
    let b = BlockHeader::image(T::spec_on_disk_size(), T::spec_eightcc());
    crate::layout::law_block_header_round_trip(
        T::spec_on_disk_size(),
        T::spec_eightcc(),
        Seq::empty(),
    );
    assert(b + Seq::empty() =~= b);
}

/// A block whose header was written for `T` is a `T` to a look at its tag, too.
pub proof fn law_tag_is_that_of_the_header<T: BStackBlock>(
    size: u64,
    range: BStackRange,
    t: Seq<Event>,
    r: Result<bool, Error>,
)
    requires
        range.len >= 16,
        range.start + 8 <= u64::MAX,
        T::spec_eightcc().len() == 8,
        tag_talk::<T>(range, t, r),
        t[0]->Read_reply == Ok::<Seq<u8>, Error>(
            BlockHeader::image(size, T::spec_eightcc()).subrange(8, 16),
        ),
    ensures
        r == Ok::<bool, Error>(true),
{
    crate::layout::law_block_header_round_trip(size, T::spec_eightcc(), Seq::empty());
    let b = BlockHeader::image(size, T::spec_eightcc());
    assert(b + Seq::empty() =~= b);
}

} // verus!
