//! Per-step capture of log output.
//!
//! Each thread has one `Capture`. While it is active, what is written to the error
//! stream is copied into it; `take` returns the copy and stops the capture.
use vstd::prelude::*;
use vstd::string::*;
use vstd::utf8::{decode_utf8, valid_utf8};

verus! {

/// The capture of a thread: the bytes written since it started, while it is active.
#[derive(Debug)]
pub struct Capture {
    pub buffer: Option<Vec<u8>>,
}

impl View for Capture {
    type V = Option<Seq<u8>>;

    open spec fn view(&self) -> Option<Seq<u8>> {
        match self.buffer {
            Some(b) => Some(b@),
            None => None,
        }
    }
}

/// The text of a capture. Nothing where there is none, or the bytes are no text.
pub open spec fn captured_text(c: Option<Seq<u8>>) -> Seq<char> {
    match c {
        Some(b) => if valid_utf8(b) {
            decode_utf8(b)
        } else {
            Seq::empty()
        },
        None => Seq::empty(),
    }
}

/// What a capture holds after a write.
pub open spec fn after_write(c: Option<Seq<u8>>, buf: Seq<u8>) -> Option<Seq<u8>> {
    match c {
        Some(b) => Some(b + buf),
        None => None,
    }
}

/// What a capture holds after a list of writes.
pub open spec fn after_writes(c: Option<Seq<u8>>, bufs: Seq<Seq<u8>>) -> Option<Seq<u8>>
    decreases bufs.len(),
{
    if bufs.len() == 0 {
        c
    } else {
        after_write(after_writes(c, bufs.drop_last()), bufs.last())
    }
}

/// A started capture holds exactly what was written since, in order; a capture
/// that was not started holds nothing.
pub proof fn lemma_after_writes(bufs: Seq<Seq<u8>>)
    ensures
        after_writes(Some(Seq::empty()), bufs) == Some(bufs.flatten()),
        after_writes(None, bufs) is None,
    decreases bufs.len(),
{
    if bufs.len() > 0 {
        lemma_after_writes(bufs.drop_last());
        assert(bufs =~= bufs.drop_last().push(bufs.last()));
        bufs.drop_last().lemma_flatten_push(bufs.last());
    } else {
        assert(bufs.flatten() =~= Seq::empty());
    }
}

/// The text that `String::from_utf8` makes of bytes, where they are valid UTF-8.
#[verifier::external_body]
fn utf8_text(bytes: Vec<u8>) -> (r: Option<String>)
    ensures
        match r {
            Some(s) => valid_utf8(bytes@) && s@ == decode_utf8(bytes@),
            None => !valid_utf8(bytes@),
        },
{
    String::from_utf8(bytes).ok()
}

/// Start capturing formatted log output.
pub fn start(capture: &mut Capture)
    ensures
        final(capture)@ == Some(Seq::<u8>::empty()),
{
    capture.buffer = Some(Vec::new());
}

/// Stop capturing and return all captured output as a string.
pub fn take(capture: &mut Capture) -> (r: String)
    ensures
        r@ == captured_text(old(capture)@),
        final(capture)@ is None,
{
    match capture.buffer.take() {
        Some(bytes) => match utf8_text(bytes) {
            Some(s) => s,
            None => String::new(),
        },
        None => String::new(),
    }
}

/// Makes the writers of the log layer.
#[derive(Debug)]
pub struct TeeWriter;

impl TeeWriter {
    pub fn make_writer(&self) -> (r: TeeIo)
        ensures
            r == TeeIo,
    {
        TeeIo
    }
}

/// Writes to the error stream and to the capture.
#[derive(Debug)]
pub struct TeeIo;

impl TeeIo {
    /// Records a write: `shown` is how the write to the error stream ended. What
    /// could not be shown is not captured.
    pub fn write<E>(&self, capture: &mut Capture, buf: &[u8], shown: Result<(), E>) -> (r: Result<
        usize,
        E,
    >)
        ensures
            match shown {
                Ok(_) => r == Ok::<usize, E>(buf@.len() as usize) && final(capture)@
                    == after_write(old(capture)@, buf@),
                Err(e) => r == Err::<usize, E>(e) && final(capture)@ == old(capture)@,
            },
    {
        match shown {
            Ok(_) => {},
            Err(e) => {
                return Err(e);
            },
        }
        let held = capture.buffer.take();
        capture.buffer = match held {
            Some(b) => {
                let mut bytes = b;
                let ghost before = bytes@;
                let mut i: usize = 0;
                while i < buf.len()
                    invariant
                        i <= buf@.len(),
                        bytes@ == before + buf@.take(i as int),
                    decreases buf@.len() - i,
                {
                    bytes.push(buf[i]);
                    proof {
                        assert(bytes@ =~= before + buf@.take(i + 1));
                    }
                    i += 1;
                }
                proof {
                    assert(buf@.take(i as int) =~= buf@);
                }
                Some(bytes)
            },
            None => None,
        };
        Ok(buf.len())
    }
}

} // verus!
