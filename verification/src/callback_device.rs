//! A device whose bytes come from callbacks.
use crate::block::{BlockDevice, BlockRead};
use crate::error::Error;
use vstd::prelude::*;

verus! {

/// A device of `size` bytes that asks `read` for them, gives them to `write`, and makes them
/// stable with `flush`. Without `write` it is read-only, and without `flush` there is nothing to
/// flush. The size is the caller's to keep still.
#[derive(Clone)]
pub struct CallbackDevice<R, W, F> {
    pub size: u64,
    pub read: R,
    pub write: Option<W>,
    pub flush: Option<F>,
}

/// What the device answers when a callback has answered `answer`.
pub open spec fn lifted(answer: Result<(), std::io::Error>) -> Result<(), Error> {
    match answer {
        Ok(()) => Ok(()),
        Err(e) => Err(Error::Io(e)),
    }
}

/// `buf`, as far as `written` goes replaced by it.
pub open spec fn overlaid(buf: Seq<u8>, written: Seq<u8>) -> Seq<u8> {
    Seq::new(
        buf.len(),
        |i: int|
            if i < written.len() {
                written[i]
            } else {
                buf[i]
            },
    )
}

fn lift(answer: Result<(), std::io::Error>) -> (r: Result<(), Error>)
    ensures
        r == lifted(answer),
{
    match answer {
        Ok(()) => Ok(()),
        Err(e) => Err(Error::Io(e)),
    }
}

impl<
    R: Fn(u64, &mut [u8]) -> Result<(), std::io::Error> + Send + Sync,
    W: Fn(u64, &[u8]) -> Result<(), std::io::Error> + Send + Sync,
    F: Fn() -> Result<(), std::io::Error> + Send + Sync,
> BlockRead for CallbackDevice<R, W, F> {
    /// The callbacks can be called with anything.
    open spec fn wf(&self) -> bool {
        &&& forall|offset: u64, buf: &mut [u8]| call_requires(self.read, (offset, buf))
        &&& self.write matches Some(w) ==> forall|offset: u64, buf: &[u8]|
            call_requires(w, (offset, buf))
        &&& self.flush matches Some(f) ==> call_requires(f, ())
    }

    open spec fn size(&self) -> u64 {
        self.size
    }

    /// The answer is the callback's, and the device stays as it is. What is read is stated with
    /// `read_at`: it is what the callback leaves in its buffer.
    open spec fn read_step(
        pre: &Self,
        offset: u64,
        buf: Seq<u8>,
        r: Result<(), Error>,
        out: Seq<u8>,
        post: &Self,
    ) -> bool {
        &&& *post == *pre
        &&& exists|asked: &mut [u8], answer: Result<(), std::io::Error>|
            asked@ == buf && #[trigger] call_ensures(pre.read, (offset, asked), answer) && r
                == lifted(answer)
    }

    /// The callback is given the buffer's bytes, and what it leaves of them is what is read,
    /// whether or not it succeeds.
    fn read_at(&mut self, offset: u64, buf: &mut [u8]) -> (r: Result<(), Error>)
        ensures
            exists|asked: &mut [u8], answer: Result<(), std::io::Error>|
                {
                    &&& asked@ == old(buf)@
                    &&& #[trigger] call_ensures(old(self).read, (offset, asked), answer)
                    &&& final(buf)@ == overlaid(old(buf)@, final(asked)@)
                    &&& r == lifted(answer)
                },
    {
        let ghost was = buf@;
        let n: usize = buf.len();
        let mut own: Vec<u8> = Vec::new();
        let mut i: usize = 0;
        while i < n
            invariant
                0 <= i <= n,
                n == buf@.len(),
                own@ == buf@.take(i as int),
            decreases n - i,
        {
            own.push(buf[i]);
            i = i + 1;
            assert(own@ =~= buf@.take(i as int));
        }
        assert(own@ =~= buf@);
        let asked = own.as_mut_slice();
        let answer = (self.read)(offset, asked);
        let mut i: usize = 0;
        while i < n && i < own.len()
            invariant
                0 <= i <= n,
                n == buf@.len(),
                n == was.len(),
                i <= own@.len(),
                buf@ == overlaid(was, own@.take(i as int)),
            decreases n - i,
        {
            buf[i] = own[i];
            i = i + 1;
            assert(buf@ =~= overlaid(was, own@.take(i as int)));
        }
        assert(buf@ =~= overlaid(was, own@));
        lift(answer)
    }

    fn size_bytes(&self) -> (r: u64) {
        self.size
    }
}

impl<
    R: Fn(u64, &mut [u8]) -> Result<(), std::io::Error> + Send + Sync,
    W: Fn(u64, &[u8]) -> Result<(), std::io::Error> + Send + Sync,
    F: Fn() -> Result<(), std::io::Error> + Send + Sync,
> BlockDevice for CallbackDevice<R, W, F> {
    open spec fn writable(&self) -> bool {
        self.write is Some
    }

    open spec fn growable(&self) -> bool {
        false
    }

    open spec fn write_step(
        pre: &Self,
        offset: u64,
        data: Seq<u8>,
        r: Result<(), Error>,
        post: &Self,
    ) -> bool {
        &&& *post == *pre
        &&& match pre.write {
            Some(w) => exists|buf: &[u8], answer: Result<(), std::io::Error>|
                buf@ == data && #[trigger] call_ensures(w, (offset, buf), answer) && r == lifted(
                    answer,
                ),
            None => r == Err::<(), Error>(Error::ReadOnly),
        }
    }

    open spec fn flush_step(pre: &Self, r: Result<(), Error>, post: &Self) -> bool {
        &&& *post == *pre
        &&& match pre.flush {
            Some(f) => exists|answer: Result<(), std::io::Error>| #[trigger]
                call_ensures(f, (), answer) && r == lifted(answer),
            None => r is Ok,
        }
    }

    open spec fn set_len_step(pre: &Self, new_len: u64, r: Result<(), Error>, post: &Self) -> bool {
        r == Err::<(), Error>(Error::ReadOnly) && *post == *pre
    }

    open spec fn same_store(pre: &Self, post: &Self) -> bool {
        *post == *pre
    }

    /// The callback is given the offset and the bytes of the write, all of them and no others.
    fn write_at(&mut self, offset: u64, buf: &[u8]) -> (r: Result<(), Error>)
        ensures
            old(self).write matches Some(w) ==> exists|answer: Result<(), std::io::Error>|
                #[trigger] call_ensures(w, (offset, buf), answer) && r == lifted(answer),
    {
        match &self.write {
            Some(w) => {
                let answer = w(offset, buf);
                lift(answer)
            },
            None => Err(Error::ReadOnly),
        }
    }

    fn flush(&mut self) -> (r: Result<(), Error>) {
        match &self.flush {
            Some(f) => {
                let answer = f();
                lift(answer)
            },
            None => Ok(()),
        }
    }

    fn is_writable(&self) -> (r: bool) {
        self.write.is_some()
    }

    fn set_len(&mut self, _new_len: u64) -> (r: Result<(), Error>) {
        Err(Error::ReadOnly)
    }

    fn can_grow(&self) -> (r: bool) {
        false
    }
}

/// A write callback is given exactly what the device was: whatever it does with an offset and
/// some bytes, it does with the offset and all the bytes of the write, and its answer is the
/// device's, a failure as the I/O error that it is.
pub proof fn write_callback_gets_the_whole_write<
    R: Fn(u64, &mut [u8]) -> Result<(), std::io::Error> + Send + Sync,
    W: Fn(u64, &[u8]) -> Result<(), std::io::Error> + Send + Sync,
    F: Fn() -> Result<(), std::io::Error> + Send + Sync,
>(
    answers: spec_fn(u64, Seq<u8>, Result<(), std::io::Error>) -> bool,
    pre: CallbackDevice<R, W, F>,
    offset: u64,
    data: Seq<u8>,
    r: Result<(), Error>,
    post: CallbackDevice<R, W, F>,
)
    requires
        pre.write matches Some(w) ==> forall|
            at: u64,
            given: &[u8],
            answer: Result<(), std::io::Error>,
        | #[trigger]
            call_ensures(w, (at, given), answer) ==> answers(at, given@, answer),
        CallbackDevice::<R, W, F>::write_step(&pre, offset, data, r, &post),
    ensures
        post == pre,
        pre.write is None ==> r == Err::<(), Error>(Error::ReadOnly),
        pre.write is Some && r is Ok ==> answers(offset, data, Ok(())),
        pre.write is Some && r is Err ==> (r matches Err(Error::Io(e)) && answers(
            offset,
            data,
            Err(e),
        )),
        pre.writable() <==> pre.write is Some,
        pre.size() == pre.size,
{
    if let Some(w) = pre.write {
        let (given, answer) = choose|given: &[u8], answer: Result<(), std::io::Error>|
            given@ == data && #[trigger] call_ensures(w, (offset, given), answer) && r == lifted(
                answer,
            );
        assert(answers(offset, given@, answer));
        if r is Ok {
            assert(answer->Ok_0 == ());
        }
    }
}

/// A device over callbacks that take any write takes any write, of any length, and one over
/// callbacks that refuse some refuses exactly those.
pub proof fn callback_writes_fail_as_their_callback_does<
    R: Fn(u64, &mut [u8]) -> Result<(), std::io::Error> + Send + Sync,
    W: Fn(u64, &[u8]) -> Result<(), std::io::Error> + Send + Sync,
    F: Fn() -> Result<(), std::io::Error> + Send + Sync,
>(
    takes: spec_fn(u64, Seq<u8>) -> bool,
    pre: CallbackDevice<R, W, F>,
    offset: u64,
    data: Seq<u8>,
    r: Result<(), Error>,
    post: CallbackDevice<R, W, F>,
)
    requires
        pre.write matches Some(w) && forall|
            at: u64,
            given: &[u8],
            answer: Result<(), std::io::Error>,
        | #[trigger]
            call_ensures(w, (at, given), answer) ==> (answer is Ok <==> takes(at, given@)),
        CallbackDevice::<R, W, F>::write_step(&pre, offset, data, r, &post),
    ensures
        r is Ok <==> takes(offset, data),
{
    write_callback_gets_the_whole_write(
        |at: u64, given: Seq<u8>, answer: Result<(), std::io::Error>|
            answer is Ok <==> takes(at, given),
        pre,
        offset,
        data,
        r,
        post,
    );
}

/// A read callback is asked for the offset and the length of the read, and its answer is the
/// device's; a flush is the flush callback's, and succeeds where there is none.
pub proof fn callbacks_answer_for_the_device<
    R: Fn(u64, &mut [u8]) -> Result<(), std::io::Error> + Send + Sync,
    W: Fn(u64, &[u8]) -> Result<(), std::io::Error> + Send + Sync,
    F: Fn() -> Result<(), std::io::Error> + Send + Sync,
>(
    gives: spec_fn(u64, Seq<u8>) -> bool,
    pre: CallbackDevice<R, W, F>,
    offset: u64,
    buf: Seq<u8>,
    r: Result<(), Error>,
    out: Seq<u8>,
    post: CallbackDevice<R, W, F>,
)
    requires
        forall|at: u64, asked: &mut [u8], answer: Result<(), std::io::Error>| #[trigger]
            call_ensures(pre.read, (at, asked), answer) ==> (answer is Ok <==> gives(at, asked@)),
    ensures
        CallbackDevice::<R, W, F>::read_step(&pre, offset, buf, r, out, &post) ==> post == pre && (r
            is Ok <==> gives(offset, buf)) && (r matches Err(e) ==> e is Io),
        CallbackDevice::<R, W, F>::flush_step(&pre, r, &post) ==> post == pre && match pre.flush {
            None => r is Ok,
            Some(f) => match r {
                Ok(_) => call_ensures(f, (), Ok(())),
                Err(e) => e is Io && call_ensures(f, (), Err(e->Io_0)),
            },
        },
        CallbackDevice::<R, W, F>::set_len_step(&pre, offset, r, &post) ==> r == Err::<(), Error>(
            Error::ReadOnly,
        ) && post == pre,
{
    if CallbackDevice::<R, W, F>::read_step(&pre, offset, buf, r, out, &post) {
        let (asked, answer) = choose|asked: &mut [u8], answer: Result<(), std::io::Error>|
            asked@ == buf && #[trigger] call_ensures(pre.read, (offset, asked), answer) && r
                == lifted(answer);
        assert(asked@ == buf);
    }
    if let Some(f) = pre.flush {
        if CallbackDevice::<R, W, F>::flush_step(&pre, r, &post) {
            let answer = choose|answer: Result<(), std::io::Error>| #[trigger]
                call_ensures(f, (), answer) && r == lifted(answer);
            if answer is Ok {
                assert(answer->Ok_0 == ());
            }
        }
    }
}

/// What a callback left of its buffer is what is read, byte for byte; where it has no byte the
/// buffer keeps its own.
pub proof fn what_a_callback_left_is_read(buf: Seq<u8>, written: Seq<u8>, i: int)
    requires
        0 <= i < buf.len(),
    ensures
        overlaid(buf, written).len() == buf.len(),
        i < written.len() ==> overlaid(buf, written)[i] == written[i],
        i >= written.len() ==> overlaid(buf, written)[i] == buf[i],
        written.len() == buf.len() ==> overlaid(buf, written) == written,
{
    if written.len() == buf.len() {
        assert(overlaid(buf, written) =~= written);
    }
}

} // verus!
