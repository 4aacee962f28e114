//! The debugger's log buffers: messages are split into lines, and each
//! buffer keeps only its most recent lines.

use vstd::prelude::*;
use crate::logtext::chars_of;
use crate::text::string_from_chars;

verus! {

/// Lines kept by the main log.
pub const LOG_SCROLL_MAX: usize = 5000;
/// Lines kept by the socket log.
pub const SOCKET_LOG_MAX: usize = 200;

/// Index of the first `\n` at or after `i`, or the length.
pub open spec fn next_newline(s: Seq<char>, i: int) -> int
    decreases s.len() - i,
{
    if i >= s.len() || i < 0 { s.len() as int } else if s[i] == '\n' { i } else { next_newline(s, i + 1) }
}

pub proof fn lemma_next_newline(s: Seq<char>, i: int)
    requires
        0 <= i <= s.len(),
    ensures
        i <= next_newline(s, i) <= s.len(),
        next_newline(s, i) < s.len() ==> s[next_newline(s, i)] == '\n',
        forall|k: int| i <= k < next_newline(s, i) ==> s[k] != '\n',
    decreases s.len() - i,
{
    if i < s.len() && s[i] != '\n' {
        lemma_next_newline(s, i + 1);
    }
}

/// `str::lines` from index `i`: pieces ended by `\n`, a `\r` before that
/// `\n` dropped, and a last piece without `\n` kept as it is.
pub open spec fn lines_from(s: Seq<char>, i: int) -> Seq<Seq<char>>
    decreases s.len() - i,
{
    if i >= s.len() || i < 0 {
        Seq::empty()
    } else {
        let j = next_newline(s, i);
        if j < s.len() {
            proof {
                lemma_next_newline(s, i);
            }
            let line = if j > i && s[j - 1] == '\r' { s.subrange(i, j - 1) } else { s.subrange(i, j) };
            seq![line] + lines_from(s, j + 1)
        } else {
            seq![s.subrange(i, s.len() as int)]
        }
    }
}

/// The lines of `s`, as `str::lines` gives them.
pub open spec fn lines_of(s: Seq<char>) -> Seq<Seq<char>> {
    lines_from(s, 0)
}

/// The last `limit` entries of `q`.
pub open spec fn keep_last<T>(q: Seq<T>, limit: nat) -> Seq<T> {
    if q.len() > limit { q.subrange(q.len() - limit, q.len() as int) } else { q }
}

pub open spec fn string_views(q: Seq<String>) -> Seq<Seq<char>> {
    q.map_values(|s: String| s@)
}

/// The log and socket-log buffers of the debugger and how many messages
/// each has received.
pub struct LogBuffers {
    log: Vec<String>,
    socket_log: Vec<String>,
    log_count: usize,
    socket_log_count: usize,
}

impl LogBuffers {
    pub closed spec fn log_lines(&self) -> Seq<Seq<char>> {
        string_views(self.log@)
    }

    pub closed spec fn socket_lines(&self) -> Seq<Seq<char>> {
        string_views(self.socket_log@)
    }

    pub closed spec fn spec_log_count(&self) -> usize {
        self.log_count
    }

    pub closed spec fn spec_socket_log_count(&self) -> usize {
        self.socket_log_count
    }

    /// Each buffer holds no more than its limit.
    pub closed spec fn wf(&self) -> bool {
        self.log@.len() <= LOG_SCROLL_MAX && self.socket_log@.len() <= SOCKET_LOG_MAX
    }

    pub fn new() -> (b: LogBuffers)
        ensures
            b.wf(),
            b.log_lines() == Seq::<Seq<char>>::empty(),
            b.socket_lines() == Seq::<Seq<char>>::empty(),
            b.spec_log_count() == 0,
            b.spec_socket_log_count() == 0,
    {
        let b = LogBuffers { log: Vec::new(), socket_log: Vec::new(), log_count: 0, socket_log_count: 0 };
        proof {
            assert(string_views(b.log@) =~= Seq::<Seq<char>>::empty());
            assert(string_views(b.socket_log@) =~= Seq::<Seq<char>>::empty());
        }
        b
    }

    /// The main log's lines, oldest first.
    pub fn log(&self) -> (r: &Vec<String>)
        ensures
            string_views(r@) == self.log_lines(),
    {
        &self.log
    }

    /// The socket log's lines, oldest first.
    pub fn socket_log(&self) -> (r: &Vec<String>)
        ensures
            string_views(r@) == self.socket_lines(),
    {
        &self.socket_log
    }

    /// Messages pushed to the main log, wrapping around.
    pub fn log_count(&self) -> (r: usize)
        ensures
            r == self.spec_log_count(),
    {
        self.log_count
    }

    /// Messages pushed to the socket log, wrapping around.
    pub fn socket_log_count(&self) -> (r: usize)
        ensures
            r == self.spec_socket_log_count(),
    {
        self.socket_log_count
    }
}

/// Appends the lines of `msg` to `buf`, dropping the oldest beyond `limit`.
fn push_lines(buf: &mut Vec<String>, msg: &str, limit: usize)
    requires
        old(buf)@.len() <= limit,
        limit > 0,
    ensures
        final(buf)@.len() <= limit,
        string_views(final(buf)@) == keep_last(string_views(old(buf)@) + lines_of(msg@), limit as nat),
{
    let s = chars_of(msg);
    let ghost all = string_views(old(buf)@) + lines_of(s@);
    let n = s.len();
    let mut i: usize = 0;
    proof {
        assert(string_views(old(buf)@) + lines_from(s@, 0) == all);
    }
    while i < n
        invariant
            n == s@.len(),
            0 <= i <= n,
            limit > 0,
            buf@.len() <= limit,
            all == string_views(old(buf)@) + lines_of(s@),
            (i == 0 || i == n || s@[i - 1] == '\n'),
            keep_last(all, limit as nat) == keep_last(string_views(buf@) + lines_from(s@, i as int), limit as nat),
        decreases n - i,
    {
        let start = i;
        while i < n && s[i] != '\n'
            invariant
                n == s@.len(),
                start <= i <= n,
                forall|k: int| start <= k < i ==> s@[k] != '\n',
            decreases n - i,
        {
            i = i + 1;
        }
        proof {
            lemma_next_newline(s@, start as int);
            if next_newline(s@, start as int) < i {
                assert(s@[next_newline(s@, start as int)] == '\n');
            }
            if next_newline(s@, start as int) > i {
                assert(s@[i as int] != '\n');
            }
            assert(next_newline(s@, start as int) == i);
        }
        let end = if i < n && i > start && s[i - 1] == '\r' { i - 1 } else { i };
        let mut line: Vec<char> = Vec::new();
        let mut k = start;
        while k < end
            invariant
                start <= k <= end <= n,
                n == s@.len(),
                line@ == s@.subrange(start as int, k as int),
            decreases end - k,
        {
            line.push(s[k]);
            proof {
                assert(s@.subrange(start as int, k + 1) =~= s@.subrange(start as int, k as int).push(s@[k as int]));
            }
            k = k + 1;
        }
        let text = string_from_chars(line.as_slice());
        let ghost before = string_views(buf@);
        buf.push(text);
        let ghost pushed = string_views(buf@);
        proof {
            assert(pushed =~= before.push(line@));
        }
        if buf.len() > limit {
            buf.remove(0);
        }
        proof {
            let rest = if i < n { lines_from(s@, i + 1) } else { Seq::<Seq<char>>::empty() };
            assert(lines_from(s@, start as int) == seq![line@] + rest);
            assert(string_views(buf@) =~= keep_last(pushed, limit as nat));
            assert(before + (seq![line@] + rest) =~= pushed + rest);
            lemma_keep_last_step(pushed, rest, limit as nat);
        }
        if i < n {
            i = i + 1;
        }
    }
    proof {
        assert(lines_from(s@, n as int) =~= Seq::<Seq<char>>::empty());
        assert(string_views(buf@) + Seq::<Seq<char>>::empty() =~= string_views(buf@));
    }
}

/// Keeping the last `limit` entries after every push keeps the last `limit`
/// of everything pushed.
proof fn lemma_keep_last_step<T>(a: Seq<T>, rest: Seq<T>, limit: nat)
    requires
        limit > 0,
    ensures
        keep_last(keep_last(a, limit) + rest, limit) == keep_last(a + rest, limit),
{
    let k = keep_last(a, limit);
    if a.len() > limit {
        let lhs = keep_last(k + rest, limit);
        let rhs = keep_last(a + rest, limit);
        assert(lhs.len() == rhs.len());
        assert forall|x: int| 0 <= x < lhs.len() implies lhs[x] == rhs[x] by {
            if rest.len() >= limit {
            } else {
            }
        }
        assert(lhs =~= rhs);
    } else {
        assert(k == a);
    }
}

/// Sets up the debugger's log buffers when the debugger receives messages:
/// buffers that exist already are kept with their lines, so a second setup
/// changes nothing; otherwise they start empty. Without debug messages
/// nothing changes.
pub fn init_logger(buffers: &mut Option<LogBuffers>, debug_messages: bool)
    ensures
        !debug_messages ==> *final(buffers) == *old(buffers),
        debug_messages && (*old(buffers) is Some) ==> *final(buffers) == *old(buffers),
        debug_messages && (*old(buffers) is None) ==> (*final(buffers) matches Some(b) && b.wf()
            && b.log_lines().len() == 0 && b.socket_lines().len() == 0
            && b.spec_log_count() == 0 && b.spec_socket_log_count() == 0),
{
    if debug_messages && buffers.is_none() {
        *buffers = Some(LogBuffers::new());
    }
}

/// Adds a message to the main log, line by line, keeping the last
/// `LOG_SCROLL_MAX` lines.
pub fn push_log(buffers: &mut LogBuffers, msg: &str)
    requires
        old(buffers).wf(),
    ensures
        final(buffers).wf(),
        final(buffers).log_lines() == keep_last(old(buffers).log_lines() + lines_of(msg@), LOG_SCROLL_MAX as nat),
        final(buffers).socket_lines() == old(buffers).socket_lines(),
        final(buffers).spec_log_count() == (if old(buffers).spec_log_count() == usize::MAX { 0 } else { old(buffers).spec_log_count() + 1 }),
        final(buffers).spec_socket_log_count() == old(buffers).spec_socket_log_count(),
{
    push_lines(&mut buffers.log, msg, LOG_SCROLL_MAX);
    buffers.log_count = buffers.log_count.wrapping_add(1);
}

/// Adds a message to the socket log, line by line, keeping the last
/// `SOCKET_LOG_MAX` lines.
pub fn push_socket_log(buffers: &mut LogBuffers, msg: &str)
    requires
        old(buffers).wf(),
    ensures
        final(buffers).wf(),
        final(buffers).socket_lines() == keep_last(old(buffers).socket_lines() + lines_of(msg@), SOCKET_LOG_MAX as nat),
        final(buffers).log_lines() == old(buffers).log_lines(),
        final(buffers).spec_socket_log_count() == (if old(buffers).spec_socket_log_count() == usize::MAX { 0 } else { old(buffers).spec_socket_log_count() + 1 }),
        final(buffers).spec_log_count() == old(buffers).spec_log_count(),
{
    push_lines(&mut buffers.socket_log, msg, SOCKET_LOG_MAX);
    buffers.socket_log_count = buffers.socket_log_count.wrapping_add(1);
}

} // verus!
