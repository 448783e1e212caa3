//! What the reader needs from the outside: handles that yield bytes, and a way
//! to open one for each source.
use vstd::prelude::*;

verus! {

/// Relies on `std::io::Error` as an opaque value: the reader only carries it,
/// unchanged, from a handle or a strategy to its own caller.
#[verifier::external_type_specification]
#[verifier::external_body]
pub struct ExIoError(std::io::Error);

/// The bytes a handle has handed out, in order.
pub type Handed = Seq<u8>;

/// What a handle was opened on: the path of a file, or `None` for standard
/// input.
pub type Origin = Option<Seq<char>>;

/// A readable stream of bytes, such as an open file or standard input: the
/// one operation of `std::io::Read` that a reader needs. Beside what that
/// trait's documentation promises (at most `buf.len()` bytes), a handle keeps
/// three records for the verifier, which each handle type defines: what it
/// was opened on, what it has handed out, and whether its latest read
/// answered its end of data; its `read` states how they change.
pub trait ByteStream {
    /// What this handle was opened on.
    spec fn origin(&self) -> Origin;

    /// The bytes this handle has handed out so far, in order.
    spec fn taken(&self) -> Handed;

    /// Whether this handle's latest read answered no bytes: its end of data.
    spec fn answered_end(&self) -> bool;

    /// Places up to `buf.len()` bytes into the front of `buf` and returns how
    /// many; `Ok(0)` for a nonempty `buf` means the stream has no more data.
    fn read(&mut self, buf: &mut [u8]) -> (r: Result<usize, std::io::Error>)
        ensures
            final(buf)@.len() == old(buf)@.len(),
            r is Ok ==> r->Ok_0 <= old(buf)@.len(),
            r is Ok ==> final(self).taken() == old(self).taken() + final(buf)@.take(r->Ok_0 as int),
            r is Err ==> final(self).taken() == old(self).taken(),
            r is Ok ==> (final(self).answered_end() <==> r->Ok_0 == 0),
            final(self).origin() == old(self).origin(),
    ;
}

/// How a reader obtains a handle for each source.
pub trait IoStrategy: Default {
    /// The handles this strategy hands out.
    type Stream: ByteStream;

    /// Opens the named file.
    fn open(&self, path: &str) -> (r: Result<Self::Stream, std::io::Error>)
        ensures
            r is Ok ==> r->Ok_0.taken() == Seq::<u8>::empty(),
            r is Ok ==> r->Ok_0.origin() == Some(path@),
    ;

    /// A handle on the process's standard input.
    fn stdin(&self) -> (r: Self::Stream)
        ensures
            r.taken() == Seq::<u8>::empty(),
            r.origin() == None::<Seq<char>>,
    ;
}

} // verus!
