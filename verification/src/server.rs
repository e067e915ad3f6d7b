//! The request protocol of the key-value server. Each request is one line:
//! `GET key`, `SET key value`, `ENDBATCH`, `EXIT code`, `STATS` or `CLEAR`.
//! Replies to `GET` and `SET` gather in a batch that `ENDBATCH` sends.

use vstd::prelude::*;
use crate::btree::{BTree, Stats};
use crate::text::{chars_of, trimmed_len, trim_end, trim_end_len, push_decimal, decimal, substring};

verus! {

/// The fan-out of the server's B-tree.
pub const FANOUT: usize = 16;

/// The map that the server keeps.
pub type MapType = BTree<String, String, FANOUT>;

/// The position of the first space in `s`, or its length if there is none.
pub open spec fn first_space(s: Seq<char>) -> nat
    decreases s.len(),
{
    if s.len() == 0 {
        0
    } else if s[0] == ' ' {
        0
    } else {
        1 + first_space(s.drop_first())
    }
}

/// The parts of a request line: the line without trailing white space, cut
/// at its first two spaces (as `trim_end().splitn(3, ' ')` cuts it).
pub open spec fn request_parts(line: Seq<char>) -> Seq<Seq<char>> {
    let t = trim_end(line);
    let i = first_space(t) as int;
    if i >= t.len() {
        seq![t]
    } else {
        let rest = t.subrange(i + 1, t.len() as int);
        let j = first_space(rest) as int;
        if j >= rest.len() {
            seq![t.subrange(0, i), rest]
        } else {
            seq![t.subrange(0, i), rest.subrange(0, j), rest.subrange(j + 1, rest.len() as int)]
        }
    }
}

/// A request, as the server reads it.
pub enum Request {
    Get(Seq<char>),
    Put(Seq<char>, Seq<char>),
    EndBatch,
    Exit,
    Stats,
    Clear,
    Unknown,
}

/// What a request line asks for; `EXIT` counts only with the right exit code.
pub open spec fn request_spec(line: Seq<char>, exit_code: Seq<char>) -> Request {
    let p = request_parts(line);
    if p[0] == seq!['G', 'E', 'T'] && p.len() == 2 {
        Request::Get(p[1])
    } else if p[0] == seq!['S', 'E', 'T'] && p.len() == 3 {
        Request::Put(p[1], p[2])
    } else if p[0] == seq!['E', 'N', 'D', 'B', 'A', 'T', 'C', 'H'] {
        Request::EndBatch
    } else if p[0] == seq!['E', 'X', 'I', 'T'] && p.len() == 2 && p[1] == exit_code {
        Request::Exit
    } else if p[0] == seq!['S', 'T', 'A', 'T', 'S'] {
        Request::Stats
    } else if p[0] == seq!['C', 'L', 'E', 'A', 'R'] {
        Request::Clear
    } else {
        Request::Unknown
    }
}

/// A parsed request.
pub enum Command {
    Get(String),
    Put(String, String),
    EndBatch,
    Exit,
    Stats,
    Clear,
    Unknown,
}

impl View for Command {
    type V = Request;

    open spec fn view(&self) -> Request {
        match self {
            Command::Get(k) => Request::Get(k@),
            Command::Put(k, v) => Request::Put(k@, v@),
            Command::EndBatch => Request::EndBatch,
            Command::Exit => Request::Exit,
            Command::Stats => Request::Stats,
            Command::Clear => Request::Clear,
            Command::Unknown => Request::Unknown,
        }
    }
}

impl Command {
    /// The command changes the map.
    pub open spec fn writes(&self) -> bool {
        self is Put || self is Clear
    }

    /// Whether the command changes the map.
    pub fn needs_write(&self) -> (r: bool)
        ensures
            r == self.writes(),
    {
        match self {
            Command::Put(..) | Command::Clear => true,
            _ => false,
        }
    }
}

/// Whether `cs[from..to]` spells `word`.
fn range_is(cs: &Vec<char>, from: usize, to: usize, word: &[char]) -> (r: bool)
    requires
        from <= to <= cs@.len(),
    ensures
        r == (cs@.subrange(from as int, to as int) == word@),
{
    if to - from != word.len() {
        return false;
    }
    let mut i: usize = 0;
    while i < word.len()
        invariant
            from <= to <= cs@.len(),
            to - from == word@.len(),
            i <= word@.len(),
            forall|j: int| 0 <= j < i ==> cs@[from + j] == word@[j],
        decreases word@.len() - i,
    {
        if cs[from + i] != word[i] {
            proof {
                assert(cs@.subrange(from as int, to as int)[i as int] != word@[i as int]);
            }
            return false;
        }
        i = i + 1;
    }
    proof {
        assert(cs@.subrange(from as int, to as int) =~= word@);
    }
    true
}

/// The position of the first space in `cs[from..to]`, counted from `from`, or
/// `to - from` if there is none.
fn find_space(cs: &Vec<char>, from: usize, to: usize) -> (i: usize)
    requires
        from <= to <= cs@.len(),
    ensures
        i == first_space(cs@.subrange(from as int, to as int)),
        from + i <= to,
{
    let mut i: usize = 0;
    while from + i < to && cs[from + i] != ' '
        invariant
            from <= to <= cs@.len(),
            from + i <= to,
            forall|j: int| from <= j < from + i ==> cs@[j] != ' ',
        decreases to - from - i,
    {
        i = i + 1;
    }
    proof {
        let s = cs@.subrange(from as int, to as int);
        assert forall|j: int| 0 <= j < i implies s[j] != ' ' by {
            assert(s[j] == cs@[from + j]);
        }
        lemma_first_space(s, i as int);
    }
    i
}

proof fn lemma_first_space(s: Seq<char>, i: int)
    requires
        0 <= i <= s.len(),
        forall|j: int| 0 <= j < i ==> s[j] != ' ',
        i == s.len() || s[i] == ' ',
    ensures
        first_space(s) == i,
    decreases i,
{
    if i > 0 {
        lemma_first_space(s.drop_first(), i - 1);
    }
}

/// Reads a request line.
pub fn parse_request(line: &str, exit_code: &str) -> (c: Command)
    ensures
        c@ == request_spec(line@, exit_code@),
{
    let cs = chars_of(line);
    let n = trimmed_len(&cs);
    let ghost t = trim_end(line@);
    proof {
        assert(t == cs@.subrange(0, n as int));
    }
    // the parts, as ranges of `cs`
    let i = find_space(&cs, 0, n);
    let (s1, e1, s2, e2, partlen): (usize, usize, usize, usize, usize) = if i >= n {
        (n, n, n, n, 1)
    } else {
        let j = find_space(&cs, i + 1, n);
        if i + 1 + j >= n {
            (i + 1, n, n, n, 2)
        } else {
            (i + 1, i + 1 + j, i + 2 + j, n, 3)
        }
    };
    let ghost p = request_parts(line@);
    proof {
        assert(cs@.subrange(0, i as int) == t.subrange(0, i as int));
        if i < n {
            let rest = t.subrange(i + 1, t.len() as int);
            assert(rest == cs@.subrange(i + 1, n as int));
            assert(cs@.subrange(s1 as int, e1 as int) =~= p[1].subrange(0, (e1 - s1) as int));
            if partlen == 2 {
                assert(p[1] =~= cs@.subrange(s1 as int, e1 as int));
            } else {
                assert(p[1] =~= cs@.subrange(s1 as int, e1 as int));
                assert(p[2] =~= cs@.subrange(s2 as int, e2 as int));
            }
        } else {
            assert(p[0] =~= cs@.subrange(0, i as int));
        }
        assert(p[0] =~= cs@.subrange(0, i as int));
        assert(p.len() == partlen);
    }
    let first_end = if i < n { i } else { n };
    if range_is(&cs, 0, first_end, &['G', 'E', 'T']) && partlen == 2 {
        Command::Get(substring(line, s1, e1))
    } else if range_is(&cs, 0, first_end, &['S', 'E', 'T']) && partlen == 3 {
        Command::Put(substring(line, s1, e1), substring(line, s2, e2))
    } else if range_is(&cs, 0, first_end, &['E', 'N', 'D', 'B', 'A', 'T', 'C', 'H']) {
        Command::EndBatch
    } else if range_is(&cs, 0, first_end, &['E', 'X', 'I', 'T']) && partlen == 2 && range_is(
        &cs,
        s1,
        e1,
        chars_of(exit_code).as_slice(),
    ) {
        Command::Exit
    } else if range_is(&cs, 0, first_end, &['S', 'T', 'A', 'T', 'S']) {
        Command::Stats
    } else if range_is(&cs, 0, first_end, &['C', 'L', 'E', 'A', 'R']) {
        Command::Clear
    } else {
        Command::Unknown
    }
}

/// What a connection has gathered since its last batch was sent: the
/// replies, and the lines to log.
pub struct Session {
    pub response: String,
    pub log: String,
}

impl Session {
    pub fn new() -> (s: Self)
        ensures
            s.response@ == Seq::<char>::empty(),
            s.log@ == Seq::<char>::empty(),
    {
        Session { response: String::new(), log: String::new() }
    }
}

/// What the connection is to do once a request is handled.
pub enum Action {
    /// Read the next request.
    Continue,
    /// Send the gathered replies; append the gathered lines to the log and
    /// flush it, where the server keeps a log.
    SendBatch { response: String, log: Option<String> },
    /// Stop the server.
    Exit,
    /// Report the map's figures and send `reply` at once.
    Stats { stats: Stats, reply: String },
    /// Report that the map was emptied and send `reply` at once.
    Cleared { reply: String },
}

/// The reply to `GET key` on `map`.
pub open spec fn get_reply(map: Map<Seq<char>, String>, key: Seq<char>) -> Seq<char> {
    if map.contains_key(key) {
        "OK "@ + map[key]@ + "\r\n"@
    } else {
        "ERR NotFound\r\n"@
    }
}

/// How a request that leaves the map as it is, `cmd`, is answered on a map
/// `m` of depth `depth`: the session goes from `s0` to `s1`, and the connection
/// is told to do `a`.
pub open spec fn responds(
    m: Map<Seq<char>, String>,
    depth: nat,
    cmd: Request,
    memonly: bool,
    s0: Session,
    s1: Session,
    a: Action,
) -> bool {
    match cmd {
        Request::Get(key) => {
            &&& a is Continue
            &&& s1.response@ == s0.response@ + get_reply(m, key)
            &&& s1.log@ == s0.log@
        },
        Request::EndBatch => {
            &&& a matches Action::SendBatch { response, log } && response@ == s0.response@
                && (if memonly { log is None } else { log matches Some(l) && l@ == s0.log@ })
            &&& s1.response@ == Seq::<char>::empty()
            &&& s1.log@ == if memonly { s0.log@ } else { Seq::<char>::empty() }
        },
        Request::Exit => a is Exit && s1 == s0,
        Request::Stats => {
            &&& a matches Action::Stats { stats, reply } && stats.size == m.len() && stats.depth == depth
                && reply@ == decimal(stats.size as nat) + " "@ + decimal(stats.depth as nat) + "\r\n"@
            &&& s1 == s0
        },
        Request::Unknown => {
            &&& a is Continue
            &&& s1.response@ == "ERR UnknownCommand\r\n"@
            &&& s1.log@ == s0.log@
        },
        _ => false,
    }
}

/// Handles a request that leaves the map as it is.
pub fn respond(map: &MapType, session: &mut Session, cmd: Command, memonly: bool) -> (a: Action)
    requires
        !cmd.writes(),
        cmd is Stats ==> 0 < map@.len() <= usize::MAX,
    ensures
        responds(map@, map.levels(), cmd@, memonly, *old(session), *final(session), a),
{
    match cmd {
        Command::Get(key) => {
            let ghost r0 = session.response@;
            match map.get(&key) {
                Some(v) => {
                    session.response.append("OK ");
                    session.response.append(v.as_str());
                    session.response.append("\r\n");
                    proof {
                        assert(session.response@ =~= r0 + ("OK "@ + v@ + "\r\n"@));
                    }
                },
                None => {
                    session.response.append("ERR NotFound\r\n");
                },
            }
            Action::Continue
        },
        Command::EndBatch => {
            let mut response = String::new();
            std::mem::swap(&mut response, &mut session.response);
            if !memonly {
                let mut log = String::new();
                std::mem::swap(&mut log, &mut session.log);
                Action::SendBatch { response, log: Some(log) }
            } else {
                Action::SendBatch { response, log: None }
            }
        },
        Command::Exit => Action::Exit,
        Command::Stats => {
            let stats = map.stats();
            let mut reply = String::new();
            push_decimal(&mut reply, stats.size);
            reply.append(" ");
            push_decimal(&mut reply, stats.depth);
            reply.append("\r\n");
            proof {
                assert(reply@ =~= decimal(stats.size as nat) + " "@ + decimal(stats.depth as nat) + "\r\n"@);
            }
            Action::Stats { stats, reply }
        },
        Command::Unknown => {
            session.response = String::new();
            session.response.append("ERR UnknownCommand\r\n");
            proof {
                assert(session.response@ =~= "ERR UnknownCommand\r\n"@);
            }
            Action::Continue
        },
        Command::Put(..) | Command::Clear => vstd::pervasive::unreached(),
    }
}

/// Handles a parsed request; `line` is the request as it was read, which a
/// server that keeps a log appends to it.
pub fn apply(map: &mut MapType, session: &mut Session, cmd: Command, line: &str, memonly: bool) -> (a: Action)
    requires
        cmd is Stats ==> 0 < old(map)@.len() <= usize::MAX,
    ensures
        match cmd {
            Command::Put(key, value) => {
                &&& a is Continue
                &&& final(map)@ == old(map)@.insert(key@, value)
                &&& final(session).response@ == old(session).response@ + "OK\r\n"@
                &&& final(session).log@ == if memonly { old(session).log@ } else { old(session).log@ + line@ + "\n"@ }
            },
            Command::Clear => {
                &&& a matches Action::Cleared { reply } && reply@ == "OK\r\n"@
                &&& final(map)@ == Map::<Seq<char>, String>::empty()
                &&& *final(session) == *old(session)
            },
            _ => *final(map) == *old(map) && responds(
                old(map)@,
                old(map).levels(),
                cmd@,
                memonly,
                *old(session),
                *final(session),
                a,
            ),
        },
{
    match cmd {
        Command::Put(key, value) => {
            let ghost v = value;
            map.insert(key, value);
            if !memonly {
                session.log.append(line);
                session.log.append("\n");
            }
            session.response.append("OK\r\n");
            Action::Continue
        },
        Command::Clear => {
            *map = MapType::new();
            let mut reply = String::new();
            reply.append("OK\r\n");
            Action::Cleared { reply }
        },
        _ => respond(map, session, cmd, memonly),
    }
}

/// Handles one request line: reads it, then answers it.
pub fn handle_request(map: &mut MapType, session: &mut Session, line: &str, memonly: bool, exit_code: &str) -> (a: Action)
    requires
        request_spec(line@, exit_code@) is Stats ==> 0 < old(map)@.len() <= usize::MAX,
    ensures
        match request_spec(line@, exit_code@) {
            Request::Put(key, value) => {
                &&& a is Continue
                &&& final(map)@.contains_key(key)
                &&& final(map)@[key]@ == value
                &&& final(map)@ == old(map)@.insert(key, final(map)@[key])
                &&& final(session).response@ == old(session).response@ + "OK\r\n"@
                &&& final(session).log@ == if memonly { old(session).log@ } else { old(session).log@ + line@ + "\n"@ }
            },
            Request::Clear => {
                &&& a matches Action::Cleared { reply } && reply@ == "OK\r\n"@
                &&& final(map)@ == Map::<Seq<char>, String>::empty()
                &&& *final(session) == *old(session)
            },
            other => *final(map) == *old(map) && responds(
                old(map)@,
                old(map).levels(),
                other,
                memonly,
                *old(session),
                *final(session),
                a,
            ),
        },
{
    let cmd = parse_request(line, exit_code);
    apply(map, session, cmd, line, memonly)
}

/// A read gives back what the last write wrote: once `SET key value` has
/// been handled on a map, `GET key` is answered `OK value`, and a `GET` of any
/// other key is answered as before the write.
pub proof fn lemma_read_after_write(
    before: Map<Seq<char>, String>,
    after: Map<Seq<char>, String>,
    line: Seq<char>,
    exit_code: Seq<char>,
    key: Seq<char>,
    value: Seq<char>,
)
    requires
        request_spec(line, exit_code) == Request::Put(key, value),
        after.contains_key(key),
        after[key]@ == value,
        after == before.insert(key, after[key]),
    ensures
        get_reply(after, key) == "OK "@ + value + "\r\n"@,
        forall|other: Seq<char>| other != key ==> get_reply(after, other) == get_reply(before, other),
{
}

/// Once `CLEAR` has been handled, every `GET` is answered `ERR NotFound`.
pub proof fn lemma_read_after_clear(after: Map<Seq<char>, String>, key: Seq<char>)
    requires
        after == Map::<Seq<char>, String>::empty(),
    ensures
        get_reply(after, key) == "ERR NotFound\r\n"@,
{
}

/// The number of line ends in `s`.
pub open spec fn line_ends(s: Seq<char>) -> nat
    decreases s.len(),
{
    if s.len() == 0 {
        0
    } else {
        line_ends(s.drop_last()) + if s.last() == '\n' {
            1nat
        } else {
            0nat
        }
    }
}

/// A line as a reader of lines hands it over: a line end, if any, only at
/// its end.
pub open spec fn single_line(s: Seq<char>) -> bool {
    forall|i: int| 0 <= i < s.len() - 1 ==> s[i] != '\n'
}

proof fn lemma_line_ends_concat(a: Seq<char>, b: Seq<char>)
    ensures
        line_ends(a + b) == line_ends(a) + line_ends(b),
    decreases b.len(),
{
    if b.len() > 0 {
        lemma_line_ends_concat(a, b.drop_last());
        assert((a + b).drop_last() =~= a + b.drop_last());
    } else {
        assert(a + b =~= a);
    }
}

proof fn lemma_no_line_end(s: Seq<char>)
    requires
        forall|i: int| 0 <= i < s.len() ==> s[i] != '\n',
    ensures
        line_ends(s) == 0,
    decreases s.len(),
{
    if s.len() > 0 {
        lemma_no_line_end(s.drop_last());
    }
}

proof fn lemma_trim_end_len_bound(s: Seq<char>)
    ensures
        trim_end_len(s) <= s.len(),
        s.len() > 0 && s.last() == '\n' ==> trim_end_len(s) < s.len(),
    decreases s.len(),
{
    if s.len() > 0 && crate::text::is_white_space(s.last()) {
        lemma_trim_end_len_bound(s.drop_last());
    }
}

/// A `SET` on a single line stores a value without a line end, so the
/// values of a map filled by such requests stay single lines.
pub proof fn lemma_set_value_single_line(line: Seq<char>, exit_code: Seq<char>, key: Seq<char>, value: Seq<char>)
    requires
        single_line(line),
        request_spec(line, exit_code) == Request::Put(key, value),
    ensures
        forall|i: int| 0 <= i < value.len() ==> value[i] != '\n',
{
    let t = trim_end(line);
    lemma_trim_end_len_bound(line);
    assert forall|i: int| 0 <= i < t.len() implies t[i] != '\n' by {
        assert(t[i] == line[i]);
    }
    let p = request_parts(line);
    let a = first_space(t) as int;
    let rest = t.subrange(a + 1, t.len() as int);
    let b = first_space(rest) as int;
    assert(value == rest.subrange(b + 1, rest.len() as int));
    assert forall|i: int| 0 <= i < value.len() implies value[i] != '\n' by {
        assert(value[i] == t[a + 1 + b + 1 + i]);
    }
}

/// Each `GET` or `SET` adds exactly one line to the replies gathered for
/// the batch, where the map's values hold no line end: a client reads one
/// reply line for each request it sent.
pub proof fn lemma_one_reply_line(
    map: Map<Seq<char>, String>,
    line: Seq<char>,
    exit_code: Seq<char>,
    before: Seq<char>,
    after: Seq<char>,
)
    requires
        forall|k: Seq<char>, i: int| #![trigger map[k]@[i]] map.contains_key(k) && 0 <= i < map[k]@.len() ==> map[k]@[i] != '\n',
        match request_spec(line, exit_code) {
            Request::Get(key) => after == before + get_reply(map, key),
            Request::Put(_, _) => after == before + "OK\r\n"@,
            _ => false,
        },
    ensures
        line_ends(after) == line_ends(before) + 1,
{
    reveal_strlit("OK ");
    reveal_strlit("\r\n");
    reveal_strlit("ERR NotFound\r\n");
    reveal_strlit("OK\r\n");
    let reply = after.subrange(before.len() as int, after.len() as int);
    assert(after =~= before + reply);
    lemma_line_ends_concat(before, reply);
    match request_spec(line, exit_code) {
        Request::Get(key) => {
            if map.contains_key(key) {
                let v = map[key]@;
                lemma_no_line_end("OK "@ + v);
                assert(reply =~= ("OK "@ + v) + "\r\n"@);
                lemma_line_ends_concat("OK "@ + v, "\r\n"@);
                assert(line_ends("\r\n"@) == 1) by {
                    let s2 = seq!['\r', '\n'];
                    assert("\r\n"@ =~= s2);
                    assert(s2.drop_last() =~= seq!['\r']);
                    lemma_no_line_end(seq!['\r']);
                }
            } else {
                assert(reply =~= "ERR NotFound\r\n"@);
                lemma_no_line_end(reply.drop_last());
            }
        },
        _ => {
            assert(reply =~= "OK\r\n"@);
            lemma_no_line_end(reply.drop_last());
        },
    }
}

} // verus!
