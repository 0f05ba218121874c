//! Choosing the network interfaces.

use vstd::prelude::*;

verus! {

/// Why no channel could be opened on an interface.
#[derive(Clone, Copy, Debug, PartialEq, Eq, Structural)]
pub enum ChannelError {
    /// There is no interface of that name.
    NoSuchInterface,
    /// The channel does not carry Ethernet frames.
    UnknownChannelType,
}

impl ChannelError {
    /// What is said of the error.
    pub open spec fn text(self) -> Seq<char> {
        match self {
            ChannelError::NoSuchInterface => "Failed to find network interface"@,
            ChannelError::UnknownChannelType => "Unknown channel type"@,
        }
    }

    /// What to say of the error.
    pub fn message(&self) -> (message: &'static str)
        ensures
            message@ == self.text(),
    {
        match self {
            ChannelError::NoSuchInterface => "Failed to find network interface",
            ChannelError::UnknownChannelType => "Unknown channel type",
        }
    }
}

/// The number of the first interface with the name `interface_name`.
pub fn find_interface(names: &Vec<String>, interface_name: &String) -> (found: Result<
    usize,
    ChannelError,
>)
    ensures
        match found {
            Ok(index) => index < names@.len() && names@[index as int]@ == interface_name@ && forall|
                i: int,
            |
                0 <= i < index ==> (#[trigger] names@[i])@ != interface_name@,
            Err(error) => error == ChannelError::NoSuchInterface && forall|i: int|
                0 <= i < names@.len() ==> (#[trigger] names@[i])@ != interface_name@,
        },
{
    let mut i: usize = 0;
    while i < names.len()
        invariant
            i <= names.len(),
            forall|j: int| 0 <= j < i ==> (#[trigger] names@[j])@ != interface_name@,
        decreases names.len() - i,
    {
        if names[i] == *interface_name {
            return Ok(i);
        }
        i = i + 1;
    }
    Err(ChannelError::NoSuchInterface)
}

/// The interfaces that the arguments of the program name: the last two, the one to send on and
/// then the one to receive on. The program's own name comes first, so there must be three.
pub fn interface_args(args: &Vec<String>) -> (interfaces: Option<(String, String)>)
    ensures
        match interfaces {
            Some((input, output)) => args@.len() >= 3 && input@ == args@[args@.len() - 2]@
                && output@ == args@[args@.len() - 1]@,
            None => args@.len() < 3,
        },
{
    if args.len() < 3 {
        return None;
    }
    Some((args[args.len() - 2].clone(), args[args.len() - 1].clone()))
}

} // verus!
