use vstd::prelude::*;

verus! {

/// Checking one byte, present or absent, against a predicate or an expected
/// value: a match hands the value back, a mismatch reports the byte that was
/// observed, and `None` reports that no byte was present.
pub trait ExpectByte: Sized {
    /// The byte this value carries, if any.
    spec fn byte_val(&self) -> Option<u8>;

    /// Demands that the carried byte satisfy `f`.
    fn expect_byte_fn<F: Fn(u8) -> bool>(self, f: F) -> (r: Result<Self, Option<u8>>)
        requires
            forall|b: u8| #[trigger] call_requires(f, (b,)),
        ensures
            self.byte_val() is None ==> r == Err::<Self, Option<u8>>(None),
            self.byte_val() matches Some(b) ==> (
                (r == Ok::<Self, Option<u8>>(self) && call_ensures(f, (b,), true))
                || (r == Err::<Self, Option<u8>>(Some(b)) && call_ensures(f, (b,), false))
            ),
    ;

    /// Demands that the carried byte be exactly `byte`.
    fn expect_byte(self, byte: u8) -> (r: Result<Self, Option<u8>>)
        ensures
            r == (match self.byte_val() {
                Some(b) => if b == byte {
                    Ok::<Self, Option<u8>>(self)
                } else {
                    Err::<Self, Option<u8>>(Some(b))
                },
                None => Err::<Self, Option<u8>>(None),
            }),
    {
        let f = |b: u8| -> (r: bool)
            ensures
                r == (b == byte),
            { b == byte };
        self.expect_byte_fn(f)
    }
}

impl ExpectByte for Option<u8> {
    open spec fn byte_val(&self) -> Option<u8> {
        *self
    }

    fn expect_byte_fn<F: Fn(u8) -> bool>(self, f: F) -> (r: Result<Self, Option<u8>>) {
        match self {
            Some(b) => {
                if f(b) {
                    Ok(self)
                } else {
                    Err(self)
                }
            },
            None => Err(self),
        }
    }
}

impl ExpectByte for u8 {
    open spec fn byte_val(&self) -> Option<u8> {
        Some(*self)
    }

    fn expect_byte_fn<F: Fn(u8) -> bool>(self, f: F) -> (r: Result<Self, Option<u8>>) {
        if f(self) {
            Ok(self)
        } else {
            Err(Some(self))
        }
    }
}

} // verus!
