//! Text commands of the form `<letter><number>` (for instance `F103.6`),
//! as typed on a console or sent by a network client, and what the
//! receiver does with them.
use vstd::prelude::*;
use vstd::utf8::is_char_boundary;
use vstd::string::StringSliceAdditionalSpecFns;

verus! {

/// What a command letter asks the receiver to do.
#[derive(Clone, Copy, Debug, PartialEq, Eq, Structural)]
pub enum RtlCommand {
    /// `F`: tune the radio front end (value in MHz).
    TunerFrequency,
    /// `f`: set the frequency of the digital mixer (value in MHz).
    MixerFrequency,
    /// `g`: set the demodulator output gain (value in dB).
    Gain,
    /// Any other letter is ignored.
    Ignored,
}

/// The action of a command letter.
pub fn classify_command(c: char) -> (r: RtlCommand)
    ensures
        r == (if c == 'F' {
            RtlCommand::TunerFrequency
        } else if c == 'f' {
            RtlCommand::MixerFrequency
        } else if c == 'g' {
            RtlCommand::Gain
        } else {
            RtlCommand::Ignored
        }),
{
    if c == 'F' {
        RtlCommand::TunerFrequency
    } else if c == 'f' {
        RtlCommand::MixerFrequency
    } else if c == 'g' {
        RtlCommand::Gain
    } else {
        RtlCommand::Ignored
    }
}

/// Splits a command line (already stripped of trailing white space) into
/// its letter and the text of its value.  A line of at most one byte
/// carries no command.  The letter must be a one-byte character.
pub fn split_command(line: &str) -> (r: Option<(char, &str)>)
    requires
        line.spec_bytes().len() <= usize::MAX,
        line.spec_bytes().len() <= 1 || is_char_boundary(line.spec_bytes(), 1),
    ensures
        line.spec_bytes().len() <= 1 ==> r is None,
        line.spec_bytes().len() > 1 ==> (r matches Some((c, rest)) && line@.len() > 0 && c
            == line@[0] && rest.spec_bytes() == line.spec_bytes().skip(1)),
{
    if line.len() > 1 {
        proof {
            if line@.len() == 0 {
                assert(line.spec_bytes() =~= Seq::<u8>::empty());
            }
        }
        let c = line.get_char(0);
        let (_, rest) = line.split_at(1);
        assert(rest.spec_bytes() =~= line.spec_bytes().skip(1));
        Some((c, rest))
    } else {
        None
    }
}

/// Collects the bytes of a command that may arrive in several datagrams.
pub struct CommandAssembler {
    pending: Vec<u8>,
}

impl View for CommandAssembler {
    type V = Seq<u8>;

    closed spec fn view(&self) -> Seq<u8> {
        self.pending@
    }
}

impl CommandAssembler {
    /// An assembler with nothing pending.
    pub fn new() -> (r: Self)
        ensures
            r@ == Seq::<u8>::empty(),
    {
        CommandAssembler { pending: Vec::new() }
    }

    /// The bytes received since the last completed command.
    pub fn pending(&self) -> (r: &[u8])
        ensures
            r@ == self@,
    {
        self.pending.as_slice()
    }

    /// Adds a received chunk.  When the chunk holds a line feed and the
    /// collected bytes are more than one, they form a command: they are
    /// returned and the assembler starts afresh.  Otherwise the bytes are
    /// kept and nothing is returned.
    pub fn feed(&mut self, chunk: &[u8]) -> (r: Option<Vec<u8>>)
        requires
            old(self)@.len() + chunk@.len() <= usize::MAX,
        ensures
            ({
                let all = old(self)@ + chunk@;
                if chunk@.contains(10u8) && all.len() > 1 {
                    &&& r matches Some(cmd) && cmd@ == all
                    &&& final(self)@ == Seq::<u8>::empty()
                } else {
                    &&& r is None
                    &&& final(self)@ == all
                }
            }),
    {
        let n = chunk.len();
        let mut has_newline = false;
        for i in 0..n
            invariant
                n == chunk@.len(),
                self@ == old(self)@ + chunk@.take(i as int),
                has_newline <==> chunk@.take(i as int).contains(10u8),
                old(self)@.len() + chunk@.len() <= usize::MAX,
        {
            let b = chunk[i];
            if b == 10u8 {
                has_newline = true;
            }
            self.pending.push(b);
            proof {
                let t = chunk@.take(i + 1);
                assert(t =~= chunk@.take(i as int).push(b));
                if b == 10u8 {
                    assert(t[i as int] == b);
                }
                if t.contains(10u8) {
                    let j = choose|j: int| 0 <= j < t.len() && t[j] == 10u8;
                    if j < i {
                        assert(chunk@.take(i as int)[j] == 10u8);
                    }
                }
                if chunk@.take(i as int).contains(10u8) {
                    let j = choose|j: int|
                        0 <= j < chunk@.take(i as int).len() && chunk@.take(i as int)[j] == 10u8;
                    assert(t[j] == 10u8);
                }
            }
        }
        assert(chunk@.take(n as int) =~= chunk@);
        if has_newline && self.pending.len() > 1 {
            let mut cmd: Vec<u8> = Vec::new();
            std::mem::swap(&mut cmd, &mut self.pending);
            Some(cmd)
        } else {
            None
        }
    }
}

} // verus!
