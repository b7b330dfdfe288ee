//! The errors of the queue.

use vstd::prelude::*;

verus! {

/// Error returned when a push operation fails because the buffer is full.
#[derive(Debug, Clone, Copy, PartialEq, Eq, Structural)]
pub enum TryPushError {
    /// The queue currently contains `capacity` elements and cannot accept more without a consumer.
    Full,
}

/// Error returned when a pop operation fails because the buffer is empty.
#[derive(Debug, Clone, Copy, PartialEq, Eq, Structural)]
pub enum TryPopError {
    /// No data is available in the queue at the moment.
    Empty,
}

/// Error of creating, opening or unlinking a shared memory queue.
#[derive(Debug, Clone, Copy, PartialEq, Eq, Structural)]
pub enum ShmError {
    /// The requested capacity is zero or not a power of two.
    CapacityNotPowerOfTwo,
    /// The slots of the requested capacity do not fit in the address space.
    CapacityTooLarge,
    /// The header and the slots together do not fit in the address space.
    LayoutOverflow,
    /// The region was created for items of another size.
    ItemSizeMismatch,
    /// The region was created with slots of another size.
    SlotSizeMismatch,
    /// The slots that the header announces do not fit in the address space.
    HeaderCapacityTooLarge,
    /// The region that the header announces does not fit in the address space.
    HeaderLayoutOverflow,
    /// The region that the header announces is smaller than the header.
    BackingTooSmall,
    /// The name is empty.
    EmptyName,
    /// The name holds a zero byte.
    NameContainsNul,
    /// A system call failed with this error number.
    Os { errno: i32 },
}

/// The class of a [`ShmError`].
#[derive(Debug, Clone, Copy, PartialEq, Eq, Structural)]
pub enum ShmErrorKind {
    /// An argument is not valid.
    InvalidInput,
    /// The contents of the shared memory are not valid.
    InvalidData,
    /// The operating system refused a request.
    Os,
}

impl ShmError {
    /// The class of the error: what is wrong with an argument is invalid input, what is wrong with
    /// a header is invalid data.
    pub fn kind(&self) -> (kind: ShmErrorKind)
        ensures
            kind is InvalidInput <==> {
                ||| self is CapacityNotPowerOfTwo
                ||| self is CapacityTooLarge
                ||| self is LayoutOverflow
                ||| self is EmptyName
                ||| self is NameContainsNul
            },
            kind is InvalidData <==> {
                ||| self is ItemSizeMismatch
                ||| self is SlotSizeMismatch
                ||| self is HeaderCapacityTooLarge
                ||| self is HeaderLayoutOverflow
                ||| self is BackingTooSmall
            },
            kind is Os <==> self is Os,
    {
        match self {
            ShmError::CapacityNotPowerOfTwo => ShmErrorKind::InvalidInput,
            ShmError::CapacityTooLarge => ShmErrorKind::InvalidInput,
            ShmError::LayoutOverflow => ShmErrorKind::InvalidInput,
            ShmError::ItemSizeMismatch => ShmErrorKind::InvalidData,
            ShmError::SlotSizeMismatch => ShmErrorKind::InvalidData,
            ShmError::HeaderCapacityTooLarge => ShmErrorKind::InvalidData,
            ShmError::HeaderLayoutOverflow => ShmErrorKind::InvalidData,
            ShmError::BackingTooSmall => ShmErrorKind::InvalidData,
            ShmError::EmptyName => ShmErrorKind::InvalidInput,
            ShmError::NameContainsNul => ShmErrorKind::InvalidInput,
            ShmError::Os { .. } => ShmErrorKind::Os,
        }
    }

    /// The text of the error; `None` where the operating system has its own for the error number.
    pub fn message(&self) -> (text: Option<&'static str>)
        ensures
            text is None <==> self is Os,
            text matches Some(t) ==> t@ == self.text(),
    {
        match self {
            ShmError::CapacityNotPowerOfTwo => Some("capacity must be a non-zero power of two"),
            ShmError::CapacityTooLarge => Some("capacity is too large"),
            ShmError::LayoutOverflow => Some("layout overflow"),
            ShmError::ItemSizeMismatch => Some("type size mismatch for shared memory queue"),
            ShmError::SlotSizeMismatch => Some("slot size mismatch for shared memory queue"),
            ShmError::HeaderCapacityTooLarge => Some("capacity too large in header"),
            ShmError::HeaderLayoutOverflow => Some("layout overflow in header"),
            ShmError::BackingTooSmall => Some("shared memory backing size is too small"),
            ShmError::EmptyName => Some("shared memory name must not be empty"),
            ShmError::NameContainsNul => Some("shared memory name contains interior null bytes"),
            ShmError::Os { .. } => None,
        }
    }

    /// The text of each error that is not the operating system's.
    pub open spec fn text(self) -> Seq<char> {
        match self {
            ShmError::CapacityNotPowerOfTwo => "capacity must be a non-zero power of two"@,
            ShmError::CapacityTooLarge => "capacity is too large"@,
            ShmError::LayoutOverflow => "layout overflow"@,
            ShmError::ItemSizeMismatch => "type size mismatch for shared memory queue"@,
            ShmError::SlotSizeMismatch => "slot size mismatch for shared memory queue"@,
            ShmError::HeaderCapacityTooLarge => "capacity too large in header"@,
            ShmError::HeaderLayoutOverflow => "layout overflow in header"@,
            ShmError::BackingTooSmall => "shared memory backing size is too small"@,
            ShmError::EmptyName => "shared memory name must not be empty"@,
            ShmError::NameContainsNul => "shared memory name contains interior null bytes"@,
            ShmError::Os { .. } => Seq::empty(),
        }
    }
}

/// The texts tell the errors apart, and each says what is wrong and then what is wrong with it. The
/// errors that a header shares with the arguments say so at the end, and the two mismatches of sizes
/// differ in the first word alone.
pub proof fn law_texts_tell_errors_apart(error: ShmError, other: ShmError)
    requires
        !(error is Os),
        !(other is Os),
    ensures
        error.text().len() > 0,
        error.text() == other.text() ==> error == other,
        ({
            let capacity = "capacity "@;
            let layout = "layout overflow"@;
            let header = " in header"@;
            let mismatch = " size mismatch for shared memory queue"@;
            let name = "shared memory name "@;
            error.text() == match error {
                ShmError::CapacityNotPowerOfTwo => capacity + "must be a non-zero power of two"@,
                ShmError::CapacityTooLarge => capacity + "is too large"@,
                ShmError::HeaderCapacityTooLarge => capacity + "too large"@ + header,
                ShmError::LayoutOverflow => layout,
                ShmError::HeaderLayoutOverflow => layout + header,
                ShmError::ItemSizeMismatch => "type"@ + mismatch,
                ShmError::SlotSizeMismatch => "slot"@ + mismatch,
                ShmError::BackingTooSmall => "shared memory backing size "@ + "is too small"@,
                ShmError::EmptyName => name + "must not be empty"@,
                ShmError::NameContainsNul => name + "contains interior null bytes"@,
                ShmError::Os { .. } => Seq::empty(),
            }
        }),
{
    reveal_strlit("capacity must be a non-zero power of two");
    reveal_strlit("capacity is too large");
    reveal_strlit("layout overflow");
    reveal_strlit("type size mismatch for shared memory queue");
    reveal_strlit("slot size mismatch for shared memory queue");
    reveal_strlit("capacity too large in header");
    reveal_strlit("layout overflow in header");
    reveal_strlit("shared memory backing size is too small");
    reveal_strlit("shared memory name must not be empty");
    reveal_strlit("shared memory name contains interior null bytes");
    reveal_strlit("capacity ");
    reveal_strlit(" in header");
    reveal_strlit(" size mismatch for shared memory queue");
    reveal_strlit("shared memory name ");
    reveal_strlit("must be a non-zero power of two");
    reveal_strlit("is too large");
    reveal_strlit("too large");
    reveal_strlit("type");
    reveal_strlit("slot");
    reveal_strlit("shared memory backing size ");
    reveal_strlit("is too small");
    reveal_strlit("must not be empty");
    reveal_strlit("contains interior null bytes");
    if error.text() == other.text() {
        assert(error.text().len() == other.text().len());
        assert(error.text()[0] == other.text()[0]);
    }
}

} // verus!
