//! Errors that carry a message meant to tell the user what to do.
use vstd::prelude::*;

use crate::text::{push_signed_decimal, push_str, signed_decimal};

verus! {

/// Errors specific to the merger that give the user actionable messages.
#[derive(Debug)]
pub enum MergerError {
    /// A device name was given but never appeared in the registry.
    DeviceNotFound(String),
    /// PipeWire reported an error code while creating an object.
    PipeWire(i32, &'static str),
}

/// The message shown for an error.
pub open spec fn merger_message_spec(e: MergerError) -> Seq<char> {
    match e {
        MergerError::DeviceNotFound(name) => "device not found: '"@ + name@
            + "'\nHint: list available devices with:\n  pw-cli list-objects Node | grep node.name"@,
        MergerError::PipeWire(code, ctx) => "PipeWire error "@ + signed_decimal(code as int) + " while "@
            + ctx@,
    }
}

impl MergerError {
    /// The message shown to the user.
    pub fn message(&self) -> (r: String)
        ensures
            r@ == merger_message_spec(*self),
    {
        let mut s = String::new();
        match self {
            MergerError::DeviceNotFound(name) => {
                push_str(&mut s, "device not found: '");
                push_str(&mut s, name.as_str());
                push_str(
                    &mut s,
                    "'\nHint: list available devices with:\n  pw-cli list-objects Node | grep node.name",
                );
            },
            MergerError::PipeWire(code, ctx) => {
                push_str(&mut s, "PipeWire error ");
                push_signed_decimal(&mut s, *code);
                push_str(&mut s, " while ");
                push_str(&mut s, ctx);
            },
        }
        assert(s@ =~= merger_message_spec(*self));
        s
    }
}

} // verus!
