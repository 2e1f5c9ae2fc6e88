//! A buffered source of bytes, and reading it line by line.
use vstd::prelude::*;

verus! {

/// Bytes handed out through a buffer of bounded size, the way a buffered
/// reader over a stream hands them out: each refill of an empty buffer takes
/// at most `cap` further bytes.
#[derive(Debug)]
pub struct ByteReader {
    pub data: Vec<u8>,
    /// Start of the unconsumed bytes.
    pub pos: usize,
    /// End of the buffered bytes.
    pub end: usize,
    /// Most bytes one refill brings in.
    pub cap: usize,
}

impl ByteReader {
    pub open spec fn wf(&self) -> bool {
        0 < self.cap && self.pos <= self.end <= self.data@.len()
    }

    /// The bytes not yet consumed.
    pub open spec fn remaining(&self) -> Seq<u8> {
        self.data@.subrange(self.pos as int, self.data@.len() as int)
    }

    /// The bytes currently buffered: the start of `remaining`.
    pub open spec fn buffered(&self) -> Seq<u8> {
        self.data@.subrange(self.pos as int, self.end as int)
    }

    /// What the buffer holds after a refill: the buffered bytes when there
    /// are some, else the next `cap` bytes (fewer at the end of the input).
    pub open spec fn available(&self) -> Seq<u8> {
        if self.end > self.pos {
            self.buffered()
        } else if self.pos + self.cap <= self.data@.len() {
            self.data@.subrange(self.pos as int, self.pos + self.cap)
        } else {
            self.remaining()
        }
    }

    /// A reader over `data` whose buffer can hold all of it at once.
    pub fn new(data: Vec<u8>) -> (r: ByteReader)
        ensures
            r.wf(),
            r.remaining() == data@,
            r.cap >= data@.len(),
            r.buffered().len() == 0,
    {
        let cap = if data.len() == 0 {
            1
        } else {
            data.len()
        };
        let r = ByteReader { data, pos: 0, end: 0, cap };
        assert(r.remaining() =~= r.data@);
        r
    }

    /// A reader over `data` whose buffer holds at most `cap` bytes at a time.
    pub fn with_capacity(data: Vec<u8>, cap: usize) -> (r: ByteReader)
        requires
            cap > 0,
        ensures
            r.wf(),
            r.remaining() == data@,
            r.cap == cap,
            r.buffered().len() == 0,
    {
        let r = ByteReader { data, pos: 0, end: 0, cap };
        assert(r.remaining() =~= r.data@);
        r
    }

    /// Number of bytes not yet consumed.
    pub fn remaining_len(&self) -> (n: usize)
        requires
            self.wf(),
        ensures
            n == self.remaining().len(),
    {
        self.data.len() - self.pos
    }

    /// Refills the buffer if it is empty.
    pub fn fill_buf(&mut self)
        requires
            old(self).wf(),
        ensures
            final(self).wf(),
            final(self).data == old(self).data,
            final(self).pos == old(self).pos,
            final(self).cap == old(self).cap,
            final(self).buffered() == old(self).available(),
    {
        if self.pos == self.end {
            let left = self.data.len() - self.pos;
            self.end = if self.cap <= left {
                self.pos + self.cap
            } else {
                self.data.len()
            };
        }
    }

    /// Reads up to `cap` further bytes into a buffer that is not empty; for a
    /// buffer that ends inside a character whose remaining bytes are still
    /// to come.
    pub fn extend_buf(&mut self)
        requires
            old(self).wf(),
            old(self).end < old(self).data@.len(),
        ensures
            final(self).wf(),
            final(self).data == old(self).data,
            final(self).pos == old(self).pos,
            final(self).cap == old(self).cap,
            old(self).end < final(self).end,
    {
        let left = self.data.len() - self.end;
        self.end = if self.cap <= left {
            self.end + self.cap
        } else {
            self.data.len()
        };
    }

    /// The buffered bytes.
    pub fn buffer(&self) -> (r: &[u8])
        requires
            self.wf(),
        ensures
            r@ == self.buffered(),
    {
        let all = self.data.as_slice();
        &all[self.pos..self.end]
    }

    /// Marks the first `n` buffered bytes as consumed.
    pub fn consume(&mut self, n: usize)
        requires
            old(self).wf(),
            n <= old(self).buffered().len(),
        ensures
            final(self).wf(),
            final(self).data == old(self).data,
            final(self).end == old(self).end,
            final(self).cap == old(self).cap,
            final(self).remaining() == old(self).remaining().skip(n as int),
            final(self).buffered() == old(self).buffered().skip(n as int),
    {
        self.pos = self.pos + n;
        assert(self.remaining() =~= old(self).remaining().skip(n as int));
        assert(self.buffered() =~= old(self).buffered().skip(n as int));
    }
}

/// Index of the first newline in `s`, or its length when it has none.
pub open spec fn line_end(s: Seq<u8>) -> int
    decreases s.len(),
{
    if s.len() == 0 || s[0] == 10 {
        0
    } else {
        1 + line_end(s.drop_first())
    }
}

/// The line that starts `s`, without its `\n` or `\r\n` ending.
pub open spec fn line_of(s: Seq<u8>) -> Seq<u8> {
    let l = s.take(line_end(s));
    if line_end(s) < s.len() && l.len() > 0 && l.last() == 13 {
        l.drop_last()
    } else {
        l
    }
}

/// What reading one line takes from `s`: the line and its newline, if any.
pub open spec fn line_taken(s: Seq<u8>) -> int {
    if line_end(s) < s.len() {
        line_end(s) + 1
    } else {
        line_end(s)
    }
}

proof fn lemma_line_end(s: Seq<u8>)
    ensures
        0 <= line_end(s) <= s.len(),
        forall|i: int| 0 <= i < line_end(s) ==> s[i] != 10,
        line_end(s) < s.len() ==> s[line_end(s)] == 10,
    decreases s.len(),
{
    if s.len() > 0 && s[0] != 10 {
        lemma_line_end(s.drop_first());
        assert forall|i: int| 0 <= i < line_end(s) implies s[i] != 10 by {
            if i > 0 {
                assert(s[i] == s.drop_first()[i - 1]);
            }
        }
    }
}

proof fn lemma_line_end_append(a: Seq<u8>, b: Seq<u8>)
    requires
        forall|i: int| 0 <= i < a.len() ==> a[i] != 10,
    ensures
        line_end(a + b) == a.len() + line_end(b),
    decreases a.len(),
{
    if a.len() > 0 {
        assert((a + b).drop_first() =~= a.drop_first() + b);
        lemma_line_end_append(a.drop_first(), b);
    } else {
        assert(a + b =~= b);
    }
}

pub proof fn lemma_line_taken(s: Seq<u8>)
    requires
        s.len() > 0,
    ensures
        1 <= line_taken(s) <= s.len(),
{
    lemma_line_end(s);
}

/// Reads a single line: the bytes up to the first `\n` or the end of the
/// input, whichever comes first, consuming the `\n` too. The returned line
/// has its `\n` or `\r\n` ending stripped. At the end of the input there is
/// no line, and `None` is returned.
pub fn read_line(reader: &mut ByteReader) -> (r: Option<Vec<u8>>)
    requires
        old(reader).wf(),
    ensures
        final(reader).wf(),
        final(reader).data == old(reader).data,
        final(reader).cap == old(reader).cap,
        old(reader).remaining().len() == 0 ==> r is None && final(reader).remaining()
            == old(reader).remaining(),
        old(reader).remaining().len() > 0 ==> (r matches Some(line) && line@ == line_of(
            old(reader).remaining(),
        ) && final(reader).remaining() == old(reader).remaining().skip(
            line_taken(old(reader).remaining()),
        )),
{
    let ghost start = reader.remaining();
    let mut buf: Vec<u8> = Vec::new();
    let mut found = false;
    proof {
        lemma_line_end(start);
    }
    loop
        invariant_except_break
            start == buf@ + reader.remaining(),
            !found,
        invariant
            reader.wf(),
            reader.data == old(reader).data,
            reader.cap == old(reader).cap,
            start == old(reader).remaining(),
            forall|i: int| 0 <= i < buf@.len() ==> buf@[i] != 10,
        ensures
            reader.wf(),
            reader.data == old(reader).data,
            reader.cap == old(reader).cap,
            found ==> start == buf@ + seq![10u8] + reader.remaining(),
            !found ==> start == buf@ && reader.remaining().len() == 0,
            forall|i: int| 0 <= i < buf@.len() ==> buf@[i] != 10,
        decreases reader.remaining().len(),
    {
        reader.fill_buf();
        let chunk = reader.buffer();
        let n = chunk.len();
        if n == 0 {
            assert(reader.remaining().len() == 0);
            assert(buf@ + reader.remaining() =~= buf@);
            break;
        }
        let mut i: usize = 0;
        while i < n && chunk[i] != 10
            invariant
                i <= n == chunk@.len(),
                forall|j: int| 0 <= j < i ==> chunk@[j] != 10,
            decreases n - i,
        {
            i = i + 1;
        }
        let ghost before = buf@;
        let mut j: usize = 0;
        while j < i
            invariant
                j <= i <= n == chunk@.len(),
                forall|t: int| 0 <= t < i ==> chunk@[t] != 10,
                buf@ == before + chunk@.take(j as int),
            decreases i - j,
        {
            buf.push(chunk[j]);
            j = j + 1;
            assert(buf@ =~= before + chunk@.take(j as int));
        }
        let ghost rem = reader.remaining();
        assert(chunk@ =~= rem.take(n as int));
        if i < n {
            reader.consume(i + 1);
            found = true;
            assert(rem =~= chunk@.take(i as int) + seq![10u8] + rem.skip(i + 1));
            assert(start =~= buf@ + seq![10u8] + reader.remaining());
            break;
        }
        reader.consume(n);
        assert(rem =~= chunk@.take(n as int) + rem.skip(n as int));
        assert(start =~= buf@ + reader.remaining());
    }
    proof {
        if found {
            lemma_line_end_append(buf@, seq![10u8] + reader.remaining());
            assert(start =~= buf@ + (seq![10u8] + reader.remaining()));
            assert(line_end(seq![10u8] + reader.remaining()) == 0);
            assert(start.take(line_end(start)) =~= buf@);
            assert(reader.remaining() =~= start.skip(line_taken(start)));
        } else {
            lemma_line_end_append(buf@, Seq::<u8>::empty());
            assert(buf@ + Seq::<u8>::empty() =~= buf@);
            assert(start.take(line_end(start)) =~= buf@);
            assert(reader.remaining() =~= start.skip(line_taken(start)));
        }
    }
    if buf.len() == 0 && !found {
        return None;
    }
    if found && buf.len() > 0 && buf[buf.len() - 1] == 13 {
        buf.pop();
        assert(buf@ =~= line_of(start));
    }
    Some(buf)
}

} // verus!
