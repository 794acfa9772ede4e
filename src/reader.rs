//! One byte stream made of several sources read one after another.
//!
//! Each source is read until it reports the end of its data; it is then
//! dropped, and the next one is read. An error from a source is handed back
//! as it is, and the source stays where it was.
use vstd::prelude::*;
use vstd::string::StrSliceExecFns;

verus! {

#[verifier::external_type_specification]
#[verifier::external_body]
pub struct ExIoError(std::io::Error);

/// Anything that bytes can be read from, one chunk at a time.
pub trait ByteSource {
    /// Fills the front of `buf` and says how many bytes it wrote; `Ok(0)`
    /// means that the source has no more data.
    fn read_bytes(&mut self, buf: &mut [u8]) -> Result<usize, std::io::Error>;
}

/// Opens the sources that input names stand for.
pub trait SourceOpener<S> {
    /// Binds standard input.
    fn open_stdin(&mut self) -> S;

    /// Opens the named file.
    fn open_file(&mut self, name: &str) -> Result<S, std::io::Error>;
}

/// One call made through a `LoggedOpener`, with what it gave back.
pub enum OpenCall<S> {
    /// Standard input was bound to the source given.
    Stdin(S),
    /// The named file was asked for, with the outcome.
    File(Seq<char>, Result<S, std::io::Error>),
}

/// Whether a call is the one that an input name asks for.
pub open spec fn asks_for<S>(name: Seq<char>, c: OpenCall<S>) -> bool {
    match c {
        OpenCall::Stdin(_) => name == stdin_name(),
        OpenCall::File(n, _) => name != stdin_name() && n == name,
    }
}

/// Whether a call gave a source.
pub open spec fn succeeded<S>(c: OpenCall<S>) -> bool {
    match c {
        OpenCall::Stdin(_) => true,
        OpenCall::File(_, o) => o is Ok,
    }
}

/// The source that a successful call gave.
pub open spec fn opened<S>(c: OpenCall<S>) -> S
    recommends
        succeeded(c),
{
    match c {
        OpenCall::Stdin(s) => s,
        OpenCall::File(_, o) => o->Ok_0,
    }
}

/// An opener, with a record of the calls made through it, in order.
pub struct LoggedOpener<S, O> {
    pub opener: O,
    log: Ghost<Seq<OpenCall<S>>>,
}

impl<S, O: SourceOpener<S>> LoggedOpener<S, O> {
    /// The calls made so far, oldest first.
    pub closed spec fn calls(&self) -> Seq<OpenCall<S>> {
        self.log@
    }

    /// Wraps `opener`; no call is recorded yet.
    pub fn new(opener: O) -> (r: Self)
        ensures
            r.calls() == Seq::<OpenCall<S>>::empty(),
    {
        LoggedOpener { opener, log: Ghost(Seq::empty()) }
    }

    /// Binds standard input, and records the call.
    pub fn open_stdin(&mut self) -> (r: S)
        ensures
            final(self).calls() == old(self).calls().push(OpenCall::Stdin(r)),
    {
        let r = self.opener.open_stdin();
        self.log = Ghost(self.log@.push(OpenCall::Stdin(r)));
        r
    }

    /// Opens the named file, and records the call with its outcome.
    pub fn open_file(&mut self, name: &str) -> (r: Result<S, std::io::Error>)
        ensures
            final(self).calls() == old(self).calls().push(OpenCall::File(name@, r)),
    {
        let r = self.opener.open_file(name);
        self.log = Ghost(self.log@.push(OpenCall::File(name@, r)));
        r
    }
}

/// Where one source's bytes come from.
#[derive(Debug, PartialEq, Eq)]
pub enum SourceName {
    Stdin,
    File(String),
}

/// The name that stands for standard input.
pub open spec fn stdin_name() -> Seq<char> {
    seq!['-']
}

/// What an input name stands for.
pub open spec fn stands_for(name: Seq<char>, s: SourceName) -> bool {
    match s {
        SourceName::Stdin => name == stdin_name(),
        SourceName::File(f) => name != stdin_name() && f@ == name,
    }
}

/// The names that are read: those given, or standard input where none is.
pub open spec fn names_read(names: Seq<String>) -> Seq<Seq<char>> {
    if names.len() == 0 {
        seq![stdin_name()]
    } else {
        names.map_values(|s: String| s@)
    }
}

/// Whether `name` stands for standard input.
pub fn is_stdin_name(name: &str) -> (r: bool)
    ensures
        r == (name@ == stdin_name()),
{
    let r = name.unicode_len() == 1 && name.get_char(0) == '-';
    assert(r ==> name@ =~= stdin_name());
    r
}

/// The sources that a list of input names stands for, in order. No names
/// means standard input alone.
pub fn source_plan(filenames: Vec<String>) -> (r: Vec<SourceName>)
    ensures
        r@.len() == names_read(filenames@).len(),
        forall|i: int| 0 <= i < r@.len() ==> stands_for(names_read(filenames@)[i], #[trigger] r@[i]),
{
    let mut plan: Vec<SourceName> = Vec::new();
    if filenames.len() == 0 {
        plan.push(SourceName::Stdin);
        return plan;
    }
    let ghost names = names_read(filenames@);
    let mut i: usize = 0;
    while i < filenames.len()
        invariant
            names == names_read(filenames@),
            filenames@.len() > 0,
            i <= filenames@.len(),
            plan@.len() == i,
            forall|j: int| 0 <= j < i ==> stands_for(names[j], #[trigger] plan@[j]),
        decreases filenames@.len() - i,
    {
        let name = filenames[i].as_str();
        if is_stdin_name(name) {
            plan.push(SourceName::Stdin);
        } else {
            plan.push(SourceName::File(filenames[i].clone()));
        }
        i = i + 1;
    }
    plan
}

/// Reads its sources one after another as one stream.
pub struct MultipleFileReader<S> {
    filehandles: Vec<S>,
}

impl<S> View for MultipleFileReader<S> {
    type V = Seq<S>;

    /// The sources not yet exhausted, the one read now first.
    closed spec fn view(&self) -> Seq<S> {
        self.filehandles@
    }
}

impl<S> MultipleFileReader<S> {
    /// A reader over sources that are already open, read in the order given.
    pub fn new_from_filehandles(filehandles: Vec<S>) -> (r: Self)
        ensures
            r@ == filehandles@,
    {
        MultipleFileReader { filehandles }
    }

    /// Opens every source that `filenames` stands for (see `source_plan`),
    /// in order, before any byte is read. The first file that fails to open
    /// ends the work, and its error is returned; no later name is opened.
    pub fn new_with_opener<O: SourceOpener<S>>(
        filenames: Vec<String>,
        opener: &mut LoggedOpener<S, O>,
    ) -> (r: Result<Self, std::io::Error>)
        ensures
            ({
                let names = names_read(filenames@);
                let before = old(opener).calls().len();
                let calls = final(opener).calls().skip(before as int);
                &&& final(opener).calls().len() >= before
                &&& final(opener).calls().take(before as int) == old(opener).calls()
                &&& 0 < calls.len() <= names.len()
                &&& forall|i: int| 0 <= i < calls.len() ==> asks_for(names[i], #[trigger] calls[i])
                &&& forall|i: int| 0 <= i < calls.len() - 1 ==> succeeded(#[trigger] calls[i])
                &&& r matches Ok(m) ==> calls.len() == names.len() && succeeded(calls.last())
                    && m@ == calls.map_values(|c: OpenCall<S>| opened(c))
                &&& r matches Err(e) ==> calls.last() == OpenCall::<S>::File(
                    names[calls.len() - 1],
                    Err(e),
                )
            }),
    {
        let ghost names = names_read(filenames@);
        let ghost before = opener.calls().len();
        let plan = source_plan(filenames);
        let mut handles: Vec<S> = Vec::with_capacity(plan.len());
        let mut i: usize = 0;
        while i < plan.len()
            invariant
                names == names_read(filenames@),
                plan@.len() == names.len(),
                names.len() > 0,
                forall|j: int| 0 <= j < plan@.len() ==> stands_for(names[j], #[trigger] plan@[j]),
                i <= plan@.len(),
                opener.calls().len() == before + i,
                opener.calls().take(before as int) == old(opener).calls(),
                before == old(opener).calls().len(),
                forall|j: int|
                    0 <= j < i ==> asks_for(names[j], #[trigger] opener.calls().skip(before as int)[j])
                        && succeeded(opener.calls().skip(before as int)[j]),
                handles@ == opener.calls().skip(before as int).map_values(
                    |c: OpenCall<S>| opened(c),
                ),
            decreases plan@.len() - i,
        {
            let ghost prev = opener.calls();
            let outcome = match &plan[i] {
                SourceName::Stdin => Ok(opener.open_stdin()),
                SourceName::File(name) => opener.open_file(name.as_str()),
            };
            proof {
                let calls = opener.calls().skip(before as int);
                assert(opener.calls() == prev.push(calls[i as int]));
                assert(calls =~= prev.skip(before as int).push(calls[i as int]));
                assert(opener.calls().take(before as int) =~= prev.take(before as int));
                assert(stands_for(names[i as int], plan@[i as int]));
                assert(asks_for(names[i as int], calls[i as int]));
            }
            let ghost out = outcome;
            match Self::after_open(&mut handles, outcome) {
                Some(e) => {
                    proof {
                        let calls = opener.calls().skip(before as int);
                        assert(out == Err::<S, std::io::Error>(e));
                        assert(calls.len() == i + 1);
                        assert(calls.last() == calls[i as int]);
                        assert(calls[i as int] == OpenCall::<S>::File(names[i as int], out));
                    }
                    return Err(e);
                },
                None => {},
            }
            proof {
                let calls = opener.calls().skip(before as int);
                assert(handles@ =~= calls.map_values(|c: OpenCall<S>| opened(c)));
            }
            i = i + 1;
        }
        Ok(MultipleFileReader::new_from_filehandles(handles))
    }

    /// Acts on what an attempt to open a source gave: a source is appended
    /// to `handles` (`None`); an error is handed back, and `handles` stays.
    pub fn after_open(handles: &mut Vec<S>, outcome: Result<S, std::io::Error>) -> (r: Option<
        std::io::Error,
    >)
        ensures
            outcome matches Ok(h) ==> r is None && final(handles)@ == old(handles)@.push(h),
            outcome matches Err(e) ==> r == Some(e) && final(handles)@ == old(handles)@,
    {
        match outcome {
            Ok(h) => {
                handles.push(h);
                None
            },
            Err(e) => Some(e),
        }
    }

    /// How many sources are not yet exhausted.
    pub fn remaining(&self) -> (r: usize)
        ensures
            r == self@.len(),
    {
        self.filehandles.len()
    }

    /// Acts on what a read from the current source gave: the end of its data
    /// drops it and asks for a read from the next (`None`); data or an error
    /// is handed back, and the source stays.
    pub fn after_read(&mut self, outcome: Result<usize, std::io::Error>) -> (r: Option<
        Result<usize, std::io::Error>,
    >)
        requires
            old(self)@.len() > 0,
        ensures
            outcome matches Ok(n) && n == 0 ==> r is None && final(self)@ == old(self)@.drop_first(),
            !(outcome matches Ok(n) && n == 0) ==> r == Some(outcome) && final(self)@ == old(self)@,
    {
        match outcome {
            Ok(n) => if n == 0 {
                self.filehandles.remove(0);
                assert(self.filehandles@ =~= old(self)@.drop_first());
                None
            } else {
                Some(Ok(n))
            },
            Err(e) => Some(Err(e)),
        }
    }
}

impl<S: ByteSource> MultipleFileReader<S> {
    /// Reads from the current source. A source that reports the end of its
    /// data is dropped and the next is read, until one gives data or an
    /// error, or none is left (`Ok(0)`). One call hands back bytes of one
    /// source only; an error leaves its source current.
    pub fn read(&mut self, buf: &mut [u8]) -> (r: Result<usize, std::io::Error>)
        ensures
            final(self)@.len() <= old(self)@.len(),
            final(self)@.len() > 0 ==> final(self)@.drop_first() == old(self)@.subrange(
                old(self)@.len() - final(self)@.len() + 1,
                old(self)@.len() as int,
            ),
            (r matches Ok(n) && n == 0) <==> final(self)@.len() == 0,
            r is Err ==> final(self)@.len() > 0,
            old(self)@.len() == 0 ==> final(buf)@ == old(buf)@,
    {
        loop
            invariant
                self@.len() <= old(self)@.len(),
                old(self)@.len() == 0 ==> buf@ == old(buf)@,
                self@ == old(self)@.subrange(
                    old(self)@.len() - self@.len(),
                    old(self)@.len() as int,
                ),
            decreases self@.len(),
        {
            if self.filehandles.len() == 0 {
                return Ok(0);
            }
            let outcome = self.filehandles[0].read_bytes(buf);
            assert(self@.drop_first() =~= old(self)@.subrange(
                old(self)@.len() - self@.len() + 1,
                old(self)@.len() as int,
            ));
            match self.after_read(outcome) {
                Some(r) => {
                    return r;
                },
                None => {},
            }
        }
    }
}

} // verus!
