//! Splitting a shell command line into arguments, the way the reference
//! shell does.
//!
//! Arguments are separated by spaces; a double quote suspends splitting
//! until the next quote; a caret escapes the following character; a NUL
//! ends the line, and an unclosed quote swallows the rest. Decoding an
//! argument drops the quotes and resolves the escapes.
//!
//! The splitter works over plain code points, so hosts feed it bytes,
//! UTF-16 units or characters alike, widened to 32 bits.

use vstd::prelude::*;

verus! {

/// The separator.
pub const SPACE: u32 = 0x20;

/// The escape character.
pub const CARET: u32 = 0x5e;

/// The quote.
pub const QUOTE: u32 = 0x22;

/// The terminator.
pub const NUL: u32 = 0;

/// What decoding a raw argument yields: quotes dropped, each caret
/// replaced by the code point it escapes (a trailing caret vanishes).
pub open spec fn spec_decode(s: Seq<u32>) -> Seq<u32>
    decreases s.len(),
{
    if s.len() == 0 {
        Seq::empty()
    } else if s[0] == QUOTE {
        spec_decode(s.drop_first())
    } else if s[0] == CARET {
        if s.len() == 1 {
            Seq::empty()
        } else {
            seq![s[1]] + spec_decode(s.skip(2))
        }
    } else {
        seq![s[0]] + spec_decode(s.drop_first())
    }
}

/// A cursor over one command line.
pub struct Split {
    pub command_line: Vec<u32>,
    pub pos: usize,
    pub fused: bool,
}

/// One raw argument: the undecoded code points between separators.
pub struct Arg {
    pub raw_arg: Vec<u32>,
}

/// Outcome of scanning for one of a set of code points.
enum Ch {
    Found { idx: usize, ch: u32 },
    NotFound(Option<usize>),
}

impl Split {
    /// Start splitting a command line.
    pub fn new(command_line: Vec<u32>) -> (r: Split)
        ensures
            r.command_line@ == command_line@,
            r.pos == 0,
            !r.fused,
    {
        Split { command_line, pos: 0, fused: false }
    }

    /// Take the next code point; a NUL fuses the cursor shut.
    fn read_ch(&mut self) -> (r: Option<(usize, u32)>)
        requires
            old(self).pos <= old(self).command_line@.len(),
        ensures
            final(self).command_line@ == old(self).command_line@,
            match r {
                Some((idx, ch)) => {
                    &&& !old(self).fused
                    &&& idx == old(self).pos
                    &&& (idx as int) < old(self).command_line@.len()
                    &&& ch == old(self).command_line@[idx as int]
                    &&& final(self).pos == old(self).pos + 1
                    &&& final(self).fused == (old(self).fused || ch == NUL)
                },
                None => {
                    &&& final(self).fused
                    &&& final(self).pos == old(self).pos
                    &&& (old(self).fused || old(self).pos == old(self).command_line@.len())
                },
            },
    {
        if self.fused {
            return None;
        }
        if self.pos < self.command_line.len() {
            let ch = self.command_line[self.pos];
            let idx = self.pos;
            self.pos = self.pos + 1;
            if ch == NUL {
                self.fused = true;
            }
            Some((idx, ch))
        } else {
            self.fused = true;
            None
        }
    }

    /// Skip separators.
    fn read_space(&mut self)
        requires
            old(self).pos <= old(self).command_line@.len(),
            !old(self).fused,
        ensures
            final(self).command_line@ == old(self).command_line@,
            !final(self).fused,
            old(self).pos <= final(self).pos <= final(self).command_line@.len(),
            (final(self).pos as int) < final(self).command_line@.len()
                ==> final(self).command_line@[final(self).pos as int] != SPACE,
            forall|k: int|
                old(self).pos <= k < final(self).pos ==> final(self).command_line@[k] == SPACE,
    {
        while self.pos < self.command_line.len() && self.command_line[self.pos] == SPACE
            invariant
                !self.fused,
                self.command_line@ == old(self).command_line@,
                old(self).pos <= self.pos <= self.command_line@.len(),
                forall|k: int| old(self).pos <= k < self.pos ==> self.command_line@[k] == SPACE,
            decreases self.command_line@.len() - self.pos,
        {
            self.pos = self.pos + 1;
        }
    }

    /// Scan for any of the given code points, honouring caret escapes.
    fn find_next_ch(&mut self, pat: &Vec<u32>) -> (r: Ch)
        requires
            old(self).pos <= old(self).command_line@.len(),
        ensures
            final(self).command_line@ == old(self).command_line@,
            final(self).pos <= final(self).command_line@.len(),
            old(self).pos <= final(self).pos,
            match r {
                Ch::Found { idx, ch } => {
                    &&& (idx as int) < final(self).command_line@.len()
                    &&& ch == final(self).command_line@[idx as int]
                    &&& old(self).pos <= idx < final(self).pos
                },
                Ch::NotFound(o) => match o {
                    Some(p) => p == final(self).pos && (p as int)
                        < final(self).command_line@.len(),
                    None => final(self).pos == final(self).command_line@.len(),
                },
            },
    {
        loop
            invariant
                self.pos <= self.command_line@.len(),
                self.command_line@ == old(self).command_line@,
                old(self).pos <= self.pos,
            decreases self.command_line@.len() - self.pos + (if self.fused {
                0int
            } else {
                1int
            }),
        {
            let (idx, ch) = match self.read_ch() {
                None => {
                    break ;
                },
                Some(v) => v,
            };
            if ch == CARET {
                match self.read_ch() {
                    None => {
                        break ;
                    },
                    Some(_) => {
                        continue ;
                    },
                }
            }
            let mut pi: usize = 0;
            let mut hit = false;
            while pi < pat.len()
                invariant
                    pi <= pat@.len(),
                decreases pat@.len() - pi,
            {
                if pat[pi] == ch {
                    hit = true;
                }
                pi = pi + 1;
            }
            if hit {
                return Ch::Found { idx, ch };
            }
        }
        if self.pos < self.command_line.len() {
            Ch::NotFound(Some(self.pos))
        } else {
            Ch::NotFound(None)
        }
    }

    /// Find where the current argument ends: the next separator or NUL
    /// outside quotes; an unclosed quote is an error.
    fn find_end_of_arg(&mut self) -> (r: Result<Option<usize>, ()>)
        requires
            old(self).pos <= old(self).command_line@.len(),
        ensures
            final(self).command_line@ == old(self).command_line@,
            final(self).pos <= final(self).command_line@.len(),
            old(self).pos <= final(self).pos,
            match r {
                Ok(Some(e)) => old(self).pos <= e && e <= final(self).pos && (e as int)
                    <= final(self).command_line@.len(),
                Ok(None) => final(self).pos == final(self).command_line@.len(),
                _ => true,
            },
    {
        let mut pat: Vec<u32> = Vec::new();
        pat.push(SPACE);
        pat.push(QUOTE);
        pat.push(NUL);
        let mut qpat: Vec<u32> = Vec::new();
        qpat.push(QUOTE);
        loop
            invariant
                self.pos <= self.command_line@.len(),
                self.command_line@ == old(self).command_line@,
                old(self).pos <= self.pos,
            decreases self.command_line@.len() - self.pos + (if self.fused {
                0int
            } else {
                1int
            }),
        {
            let ghost pre_pos = self.pos;
            let found = self.find_next_ch(&pat);
            let (idx, ch) = match found {
                Ch::Found { idx, ch } => (idx, ch),
                Ch::NotFound(end) => {
                    return Ok(end);
                },
            };
            if ch != QUOTE {
                return Ok(Some(idx));
            }
            match self.find_next_ch(&qpat) {
                Ch::Found { .. } => {
                    proof {
                        // scanning consumed at least the two quotes
                        assert(self.pos > pre_pos);
                    }
                },
                Ch::NotFound(_) => {
                    return Err(());
                },
            }
        }
    }

    /// Produce the next raw argument, or nothing at the end of the line.
    pub fn next(&mut self) -> (r: Option<Arg>)
        requires
            old(self).pos <= old(self).command_line@.len(),
        ensures
            final(self).command_line@ == old(self).command_line@,
            final(self).pos <= final(self).command_line@.len(),
            match r {
                Some(arg) => {
                    &&& final(self).pos > old(self).pos
                    &&& arg.raw_arg@.len() > 0
                    &&& exists|b: int, e: int|
                        old(self).pos <= b <= e <= final(self).command_line@.len()
                            && arg.raw_arg@ == final(self).command_line@.subrange(b, e)
                            && (forall|k: int|
                                old(self).pos <= k < b ==> final(self).command_line@[k] == SPACE)
                            && final(self).command_line@[b] != SPACE
                },
                None => final(self).fused || final(self).pos == final(self).command_line@.len(),
            },
    {
        if self.fused {
            return None;
        }
        self.read_space();
        if self.pos >= self.command_line.len() {
            return None;
        }
        let begin = self.pos;
        let end = match self.find_end_of_arg() {
            Err(()) => {
                self.fused = true;
                return None;
            },
            Ok(v) => v,
        };
        let e = match end {
            Some(e) => {
                if begin == e {
                    self.fused = true;
                    return None;
                }
                if e < begin {
                    // the scan never ends before it began
                    self.fused = true;
                    return None;
                }
                e
            },
            None => self.command_line.len(),
        };
        let mut raw: Vec<u32> = Vec::new();
        let mut i: usize = begin;
        while i < e
            invariant
                begin <= i <= e,
                e <= self.command_line@.len(),
                raw@ == self.command_line@.subrange(begin as int, i as int),
            decreases e - i,
        {
            raw.push(self.command_line[i]);
            proof {
                assert(raw@ =~= self.command_line@.subrange(begin as int, (i + 1) as int));
            }
            i = i + 1;
        }
        if raw.len() == 0 {
            return None;
        }
        proof {
            assert(old(self).pos <= begin);
            assert(raw@ == self.command_line@.subrange(begin as int, e as int));
            assert(begin < e);
            assert(e <= self.pos);
            assert(self.pos > old(self).pos);
            assert(self.command_line@[begin as int] != SPACE);
            assert(forall|k: int|
                old(self).pos <= k < begin ==> self.command_line@[k] == SPACE);
        }
        Some(Arg { raw_arg: raw })
    }
}

/// A decoding cursor over one raw argument.
pub struct ArgIter {
    pub data: Vec<u32>,
    pub pos: usize,
}

impl ArgIter {
    /// The next decoded code point, if any: the decoding of what remains
    /// starts with it.
    pub fn next(&mut self) -> (r: Option<u32>)
        requires
            old(self).pos <= old(self).data@.len(),
        ensures
            final(self).data@ == old(self).data@,
            final(self).pos <= final(self).data@.len(),
            match r {
                Some(c) => {
                    &&& final(self).pos > old(self).pos
                    &&& spec_decode(old(self).data@.skip(old(self).pos as int)) == seq![c]
                        + spec_decode(final(self).data@.skip(final(self).pos as int))
                },
                None => spec_decode(old(self).data@.skip(old(self).pos as int))
                    == Seq::<u32>::empty(),
            },
    {
        loop
            invariant
                self.pos <= self.data@.len(),
                self.data@ == old(self).data@,
                old(self).pos <= self.pos,
                spec_decode(self.data@.skip(old(self).pos as int)) == spec_decode(
                    self.data@.skip(self.pos as int),
                ),
            decreases self.data@.len() - self.pos,
        {
            if self.pos >= self.data.len() {
                return None;
            }
            let ch = self.data[self.pos];
            let ghost rest = self.data@.skip(self.pos as int);
            if ch == QUOTE {
                proof {
                    assert(rest.drop_first() =~= self.data@.skip(self.pos as int + 1));
                }
                self.pos = self.pos + 1;
            } else if ch == CARET {
                if self.pos + 1 < self.data.len() {
                    let c2 = self.data[self.pos + 1];
                    proof {
                        assert(rest.skip(2) =~= self.data@.skip(self.pos as int + 2));
                        assert(rest[1] == c2);
                    }
                    self.pos = self.pos + 2;
                    return Some(c2);
                } else {
                    proof {
                        assert(rest.len() == 1);
                        assert(self.data@.skip(self.data@.len() as int) =~= Seq::<u32>::empty());
                    }
                    self.pos = self.data.len();
                    return None;
                }
            } else {
                proof {
                    assert(rest.drop_first() =~= self.data@.skip(self.pos as int + 1));
                }
                self.pos = self.pos + 1;
                return Some(ch);
            }
        }
    }
}

/// How a decoded argument was produced: in place, or rebuilt.
pub struct Decoded {
    pub owned: bool,
    pub data: Vec<u32>,
}

impl Arg {
    /// The raw, undecoded argument.
    pub fn raw(&self) -> (r: &Vec<u32>)
        ensures
            r@ == self.raw_arg@,
    {
        &self.raw_arg
    }

    /// A decoding cursor over this argument.
    pub fn iter(&self) -> (r: ArgIter)
        ensures
            r.data@ == self.raw_arg@,
            r.pos == 0,
    {
        ArgIter { data: crate::shell_split::copy_u32_vec(&self.raw_arg), pos: 0 }
    }

    /// Decode the argument into a fresh buffer.
    pub fn decode_to_owned(&self) -> (r: Vec<u32>)
        ensures
            r@ == spec_decode(self.raw_arg@),
    {
        decode_core(&self.raw_arg)
    }

    /// Decode the argument, noting whether the raw form could have served
    /// in place: a plain argument, or one merely wrapped in quotes.
    pub fn decode(&self) -> (r: Decoded)
        ensures
            r.data@ == spec_decode(self.raw_arg@),
    {
        let mut first: Option<usize> = None;
        let mut last: Option<usize> = None;
        let mut count: usize = 0;
        let mut to_owned = false;
        let mut i: usize = 0;
        while i < self.raw_arg.len()
            invariant
                i <= self.raw_arg@.len(),
                count <= i,
            decreases self.raw_arg@.len() - i,
        {
            let ch = self.raw_arg[i];
            count = count + 1;
            if last.is_some() {
                to_owned = true;
                i = self.raw_arg.len();
            } else {
                if ch == QUOTE {
                    if first.is_none() {
                        first = Some(count);
                        if count != 1 {
                            to_owned = true;
                            i = self.raw_arg.len();
                        }
                    } else {
                        last = Some(count);
                    }
                }
                if ch == CARET && !to_owned {
                    to_owned = true;
                    i = self.raw_arg.len();
                }
                if i < self.raw_arg.len() {
                    i = i + 1;
                }
            }
        }
        let data = decode_core(&self.raw_arg);
        Decoded { owned: to_owned, data }
    }
}

/// Element-wise copy of a code-point vector.
pub fn copy_u32_vec(v: &Vec<u32>) -> (r: Vec<u32>)
    ensures
        r@ == v@,
{
    let mut r: Vec<u32> = Vec::new();
    let mut i: usize = 0;
    while i < v.len()
        invariant
            i <= v@.len(),
            r@ == v@.subrange(0, i as int),
        decreases v@.len() - i,
    {
        r.push(v[i]);
        proof {
            assert(r@ =~= v@.subrange(0, (i + 1) as int));
        }
        i = i + 1;
    }
    proof {
        assert(v@.subrange(0, v@.len() as int) =~= v@);
    }
    r
}

/// Decode a raw argument: drop quotes, resolve caret escapes.
fn decode_core(raw: &Vec<u32>) -> (r: Vec<u32>)
    ensures
        r@ == spec_decode(raw@),
{
    let mut out: Vec<u32> = Vec::new();
    proof {
        assert(raw@.skip(0) =~= raw@);
        assert(Seq::<u32>::empty() + spec_decode(raw@) =~= spec_decode(raw@));
    }
    let mut i: usize = 0;
    while i < raw.len()
        invariant
            i <= raw@.len(),
            out@ + spec_decode(raw@.skip(i as int)) == spec_decode(raw@),
        decreases raw@.len() - i,
    {
        let ch = raw[i];
        let ghost rest = raw@.skip(i as int);
        if ch == QUOTE {
            proof {
                assert(rest.drop_first() =~= raw@.skip(i as int + 1));
            }
            i = i + 1;
        } else if ch == CARET {
            if i + 1 < raw.len() {
                let c2 = raw[i + 1];
                proof {
                    assert(rest.skip(2) =~= raw@.skip(i as int + 2));
                    assert(rest[1] == c2);
                    assert(out@.push(c2) + spec_decode(raw@.skip(i as int + 2)) =~= out@ + (seq![
                        c2,
                    ] + spec_decode(raw@.skip(i as int + 2))));
                }
                out.push(c2);
                i = i + 2;
            } else {
                proof {
                    assert(rest.len() == 1);
                    assert(raw@.skip(raw@.len() as int) =~= Seq::<u32>::empty());
                    assert(out@ + Seq::<u32>::empty() =~= out@);
                }
                i = raw.len();
            }
        } else {
            proof {
                assert(rest.drop_first() =~= raw@.skip(i as int + 1));
                assert(rest[0] == ch);
                assert(out@.push(ch) + spec_decode(raw@.skip(i as int + 1)) =~= out@ + (seq![ch]
                    + spec_decode(raw@.skip(i as int + 1))));
            }
            out.push(ch);
            i = i + 1;
        }
    }
    proof {
        assert(raw@.skip(raw@.len() as int) =~= Seq::<u32>::empty());
        assert(out@ + Seq::<u32>::empty() =~= out@);
        assert(out@ =~= spec_decode(raw@));
    }
    out
}

/// Every produced argument is the decoding of some stretch of the line.
pub open spec fn decoded_args_ok(r: Seq<Vec<u32>>, line: Seq<u32>) -> bool {
    forall|k: int|
        0 <= k < r.len() ==> exists|b: int, e: int|
            0 <= b <= e <= line.len() && (#[trigger] r[k])@ == spec_decode(line.subrange(b, e))
}

/// Split a whole command line into decoded arguments.
pub fn split(command_line: &Vec<u32>) -> (r: Vec<Vec<u32>>)
    ensures
        decoded_args_ok(r@, command_line@),
{
    let mut s = Split::new(copy_u32_vec(command_line));
    let mut r: Vec<Vec<u32>> = Vec::new();
    loop
        invariant
            s.pos <= s.command_line@.len(),
            s.command_line@ == command_line@,
            decoded_args_ok(r@, command_line@),
        decreases s.command_line@.len() - s.pos + (if s.fused {
            0int
        } else {
            1int
        }),
    {
        let ghost pre_pos = s.pos;
        if s.fused {
            return r;
        }
        let arg = match s.next() {
            None => {
                return r;
            },
            Some(a) => a,
        };
        let d = arg.decode_to_owned();
        r.push(d);
        proof {
            let (b, e) = choose|b: int, e: int|
                pre_pos <= b <= e <= s.command_line@.len() && arg.raw_arg@
                    == s.command_line@.subrange(b, e);
            assert((r@[r@.len() - 1])@ == spec_decode(command_line@.subrange(b, e)));
            assert(decoded_args_ok(r@, command_line@)) by {
                assert forall|k: int|
                    0 <= k < r@.len() implies exists|b2: int, e2: int|
                        0 <= b2 <= e2 <= command_line@.len() && (#[trigger] r@[k])@ == spec_decode(
                            command_line@.subrange(b2, e2),
                        ) by {
                    if k < r@.len() - 1 {
                        assert(r@[k] == r@.subrange(0, r@.len() - 1)[k]);
                    } else {
                        assert((r@[k])@ == spec_decode(command_line@.subrange(b, e)));
                    }
                }
            }
        }
    }
}

} // verus!
