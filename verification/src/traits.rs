//! The serialization capability: the one contract every serializable type
//! implements, with the two derived entry points.

use vstd::prelude::*;

verus! {

/// A type that can append its JSON text form to a byte buffer, in compact
/// or pretty form.
pub trait Serialize {
    /// Well-formedness required of a value before it is serialized.
    spec fn wf(&self) -> bool;

    /// The nesting depth of the value; it bounds how far `level` grows
    /// during recursive serialization.
    spec fn depth(&self) -> nat;

    /// The JSON text of the value at width `indent` and nesting depth
    /// `level`, as a byte sequence.
    spec fn encoded(&self, indent: nat, level: nat) -> Seq<u8>;

    /// Appends the JSON text of `self` to `buffer`. A width of zero gives
    /// the compact form; `level` is the current nesting depth, used to
    /// compute leading padding.
    fn serialize_to(&self, buffer: &mut Vec<u8>, indent: u32, level: u32)
        requires
            self.wf(),
            level as nat + self.depth() <= u32::MAX as nat,
        ensures
            final(buffer)@ == old(buffer)@ + self.encoded(indent as nat, level as nat),
    ;

    /// The compact, single-line JSON text of `self`.
    fn serialize(&self) -> (out: Vec<u8>)
        requires
            self.wf(),
            self.depth() <= u32::MAX as nat,
        ensures
            out@ == self.encoded(0, 0),
    {
        let mut buffer = Vec::new();
        self.serialize_to(&mut buffer, 0, 0);
        proof {
            assert(buffer@ =~= self.encoded(0, 0));
        }
        buffer
    }

    /// The pretty JSON text of `self`, indented by `indent` spaces per
    /// nesting level.
    fn format(&self, indent: u32) -> (out: Vec<u8>)
        requires
            self.wf(),
            self.depth() <= u32::MAX as nat,
        ensures
            out@ == self.encoded(indent as nat, 0),
    {
        let mut buffer = Vec::new();
        self.serialize_to(&mut buffer, indent, 0);
        proof {
            assert(buffer@ =~= self.encoded(indent as nat, 0));
        }
        buffer
    }
}

} // verus!
