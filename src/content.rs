use vstd::prelude::*;

verus! {

/// The zero-width space placed after every `@`, so that the far side shows the
/// text unchanged but reads no mention in it.
pub open spec fn mention_guard() -> Seq<char> {
    seq!['@', '\u{200B}']
}

/// `s` with a zero-width space inserted right after each `@`.
pub open spec fn sanitized(s: Seq<char>) -> Seq<char>
    decreases s.len(),
{
    if s.len() == 0 {
        Seq::empty()
    } else {
        let prev = sanitized(s.drop_last());
        if s.last() == '@' {
            prev + mention_guard()
        } else {
            prev.push(s.last())
        }
    }
}

/// The first index at or after `i` that holds `c`, or the length of `s`.
pub open spec fn first_index_from(s: Seq<char>, c: char, i: int) -> int
    decreases s.len() - i,
{
    if i < 0 || i >= s.len() {
        s.len() as int
    } else if s[i] == c {
        i
    } else {
        first_index_from(s, c, i + 1)
    }
}

/// Whether a line that starts at `i` is a quote line, i.e. begins with "> ".
pub open spec fn quote_line_at(s: Seq<char>, i: int) -> bool {
    0 <= i && i + 1 < s.len() && s[i] == '>' && s[i + 1] == ' '
}

/// Where the run of quote lines that begins at line start `i` ends: the start
/// of the first line that is not a quote line (a blank line is not one), or
/// the length of `s`.
pub open spec fn quote_block_end(s: Seq<char>, i: int) -> int
    decreases s.len() - i,
{
    if quote_line_at(s, i) {
        let e = first_index_from(s, '\n', i + 2);
        if e < s.len() && e > i {
            quote_block_end(s, e + 1)
        } else {
            s.len() as int
        }
    } else {
        i
    }
}

/// `t` with its last line ended by a newline.
pub open spec fn newline_terminated(t: Seq<char>) -> Seq<char> {
    if t.len() == 0 || t.last() == '\n' {
        t
    } else {
        t.push('\n')
    }
}

/// `s` without its leading quote lines, each remaining line ended by a newline.
pub open spec fn stripped(s: Seq<char>) -> Seq<char> {
    newline_terminated(s.subrange(quote_block_end(s, 0), s.len() as int))
}

/// The first index at or after `from` where `s` holds `c`, or its length.
pub fn find_char_from(s: &str, c: char, from: usize) -> (r: usize)
    requires
        from <= s@.len(),
    ensures
        r == first_index_from(s@, c, from as int),
        from <= r <= s@.len(),
{
    let n = s.unicode_len();
    let mut i = from;
    while i < n && s.get_char(i) != c
        invariant
            from <= i <= n,
            n == s@.len(),
            first_index_from(s@, c, i as int) == first_index_from(s@, c, from as int),
        decreases n - i,
    {
        i = i + 1;
    }
    i
}

/// Escapes every mention: a zero-width space goes right after each `@`.
pub fn sanitize(message: &str) -> (r: String)
    ensures
        r@ == sanitized(message@),
{
    let n = message.unicode_len();
    let mut out = String::new();
    let mut i: usize = 0;
    while i < n
        invariant
            n == message@.len(),
            i <= n,
            out@ == sanitized(message@.subrange(0, i as int)),
        decreases n - i,
    {
        proof {
            assert(message@.subrange(0, i + 1).drop_last() =~= message@.subrange(0, i as int));
        }
        if message.get_char(i) == '@' {
            proof {
                reveal_strlit("@\u{200B}");
            }
            out.append("@\u{200B}");
        } else {
            let piece = message.substring_char(i, i + 1);
            out.append(piece);
            assert(piece@ =~= seq![message@[i as int]]);
        }
        i = i + 1;
    }
    assert(message@.subrange(0, n as int) =~= message@);
    out
}

/// Drops the leading run of quote lines ("> ...") and returns the rest, each of
/// its lines ended by a newline. A blank line or any other line ends the run.
pub fn strip_reply(msg: &str) -> (r: String)
    ensures
        r@ == stripped(msg@),
{
    let n = msg.unicode_len();
    let mut p: usize = 0;
    while p < n && n - p > 1 && msg.get_char(p) == '>' && msg.get_char(p + 1) == ' '
        invariant
            n == msg@.len(),
            p <= n,
            quote_block_end(msg@, p as int) == quote_block_end(msg@, 0),
        decreases n - p,
    {
        let e = find_char_from(msg, '\n', p + 2);
        if e < n {
            p = e + 1;
        } else {
            p = n;
        }
    }
    let rest = msg.substring_char(p, n);
    let mut out = rest.to_owned();
    if n > p && msg.get_char(n - 1) != '\n' {
        proof {
            reveal_strlit("\n");
        }
        out.append("\n");
        assert(out@ =~= rest@.push('\n'));
    }
    out
}

/// `s` without its leading copies of `c`.
pub open spec fn trim_start(s: Seq<char>, c: char) -> Seq<char>
    decreases s.len(),
{
    if s.len() > 0 && s[0] == c {
        trim_start(s.drop_first(), c)
    } else {
        s
    }
}

/// `s` without its trailing copies of `c`.
pub open spec fn trim_end(s: Seq<char>, c: char) -> Seq<char>
    decreases s.len(),
{
    if s.len() > 0 && s.last() == c {
        trim_end(s.drop_last(), c)
    } else {
        s
    }
}

pub open spec fn starts_with(s: Seq<char>, prefix: Seq<char>) -> bool {
    prefix.len() <= s.len() && s.subrange(0, prefix.len() as int) == prefix
}

/// The part of `s` before its first `c` (all of `s` where there is none).
pub open spec fn before_char(s: Seq<char>, c: char) -> Seq<char> {
    s.subrange(0, first_index_from(s, c, 0))
}

/// The local part of a mention such as "<@name:server>": "name".
pub open spec fn mention_localpart(ping: Seq<char>) -> Seq<char> {
    before_char(trim_end(trim_start(trim_start(ping, '<'), '@'), '>'), ':')
}

/// How the author of a quoted message is named on the gateway side: a user
/// puppeted by the bridge (local part starting with `bot`) gets a gateway
/// mention of the rest of its local part; anyone else is written as the bare
/// federated id.
pub open spec fn ping_text(ping: Seq<char>, bot: Seq<char>) -> Seq<char> {
    let lp = mention_localpart(ping);
    if starts_with(lp, bot) {
        "<@"@ + lp.subrange(bot.len() as int, lp.len() as int) + ">"@
    } else {
        trim_end(trim_start(ping, '<'), '>')
    }
}

/// `s` without its leading copies of `c`.
pub fn trim_start_char(s: &str, c: char) -> (r: &str)
    ensures
        r@ == trim_start(s@, c),
{
    let n = s.unicode_len();
    let mut i: usize = 0;
    assert(s@.subrange(0, n as int) =~= s@);
    while i < n && s.get_char(i) == c
        invariant
            n == s@.len(),
            i <= n,
            trim_start(s@.subrange(i as int, n as int), c) == trim_start(s@, c),
        decreases n - i,
    {
        assert(s@.subrange(i as int, n as int).drop_first() =~= s@.subrange(i + 1, n as int));
        i = i + 1;
    }
    s.substring_char(i, n)
}

/// `s` without its trailing copies of `c`.
pub fn trim_end_char(s: &str, c: char) -> (r: &str)
    ensures
        r@ == trim_end(s@, c),
{
    let n = s.unicode_len();
    let mut j: usize = n;
    assert(s@.subrange(0, n as int) =~= s@);
    while j > 0 && s.get_char(j - 1) == c
        invariant
            n == s@.len(),
            j <= n,
            trim_end(s@.subrange(0, j as int), c) == trim_end(s@, c),
        decreases j,
    {
        assert(s@.subrange(0, j as int).drop_last() =~= s@.subrange(0, j - 1));
        j = j - 1;
    }
    s.substring_char(0, j)
}

/// Whether `s` begins with `prefix`.
pub fn has_prefix(s: &str, prefix: &str) -> (r: bool)
    ensures
        r == starts_with(s@, prefix@),
{
    let n = s.unicode_len();
    let m = prefix.unicode_len();
    if m > n {
        return false;
    }
    let mut i: usize = 0;
    while i < m
        invariant
            n == s@.len(),
            m == prefix@.len(),
            m <= n,
            i <= m,
            forall|k: int| 0 <= k < i ==> s@[k] == prefix@[k],
        decreases m - i,
    {
        if s.get_char(i) != prefix.get_char(i) {
            assert(s@.subrange(0, m as int)[i as int] != prefix@[i as int]);
            return false;
        }
        i = i + 1;
    }
    assert(s@.subrange(0, m as int) =~= prefix@);
    true
}

/// Turns the sender of a quoted federated message into the text that names it
/// in a reply header. `bot_localpart` is the local part shared by every user
/// the bridge puppets.
pub fn find_ping(ping: &str, bot_localpart: &str) -> (r: String)
    ensures
        r@ == ping_text(ping@, bot_localpart@),
{
    let user = trim_end_char(trim_start_char(trim_start_char(ping, '<'), '@'), '>');
    let cut = find_char_from(user, ':', 0);
    let localpart = user.substring_char(0, cut);
    if has_prefix(localpart, bot_localpart) {
        let rest = localpart.substring_char(bot_localpart.unicode_len(), localpart.unicode_len());
        let mut out = String::from_str("<@");
        out.append(rest);
        out.append(">");
        out
    } else {
        trim_end_char(trim_start_char(ping, '<'), '>').to_owned()
    }
}

/// How many characters of a quoted line a reply header keeps.
pub const REPLY_SUMMARY_CHARS: usize = 64;

/// The first line of `s`, without its newline.
pub open spec fn first_line(s: Seq<char>) -> Seq<char> {
    before_char(s, '\n')
}

/// A quoted line cut to its first 64 characters, with "..." after a cut.
pub open spec fn truncated(line: Seq<char>) -> Seq<char> {
    if line.len() > REPLY_SUMMARY_CHARS {
        line.subrange(0, REPLY_SUMMARY_CHARS as int) + "..."@
    } else {
        line
    }
}

/// "> {ping} {summary}", the summary being the truncated line, written as a
/// link to `link` where there is one.
pub open spec fn reply_header(ping: Seq<char>, line: Seq<char>, link: Option<Seq<char>>) -> Seq<char> {
    "> "@ + ping + " "@ + match link {
        Some(l) => "["@ + truncated(line) + "]("@ + l + ")"@,
        None => truncated(line),
    }
}

/// A reply's body: the header, a newline, then the body without its own quote.
pub open spec fn with_reply(body: Seq<char>, header: Seq<char>) -> Seq<char> {
    header + "\n"@ + stripped(body)
}

/// The first line of `s`.
pub fn first_line_of(s: &str) -> (r: &str)
    ensures
        r@ == first_line(s@),
{
    let cut = find_char_from(s, '\n', 0);
    s.substring_char(0, cut)
}

/// Builds the header that a relayed reply starts with.
pub fn build_reply_header(ping: &str, first_line: &str, link: &Option<String>) -> (r: String)
    ensures
        r@ == reply_header(ping@, first_line@, match link {
            Some(l) => Some(l@),
            None => None,
        }),
{
    let n = first_line.unicode_len();
    let mut summary: String;
    if n > REPLY_SUMMARY_CHARS {
        summary = first_line.substring_char(0, REPLY_SUMMARY_CHARS).to_owned();
        summary.append("...");
    } else {
        summary = first_line.to_owned();
    }
    let mut out = String::from_str("> ");
    out.append(ping);
    out.append(" ");
    match link {
        Some(l) => {
            out.append("[");
            out.append(summary.as_str());
            out.append("](");
            out.append(l.as_str());
            out.append(")");
        },
        None => {
            out.append(summary.as_str());
        },
    }
    out
}

/// Puts `header` in front of a reply's body, whose own quote is dropped.
pub fn format_with_reply(body: &str, header: &str) -> (r: String)
    ensures
        r@ == with_reply(body@, header@),
{
    let mut out = header.to_owned();
    out.append("\n");
    let rest = strip_reply(body);
    out.append(rest.as_str());
    out
}

/// Whether `a` and `b` hold the same characters.
pub fn same_text(a: &str, b: &str) -> (r: bool)
    ensures
        r == (a@ == b@),
{
    if a.unicode_len() != b.unicode_len() {
        return false;
    }
    let r = has_prefix(a, b);
    assert(a@ =~= a@.subrange(0, b@.len() as int));
    r
}

} // verus!
