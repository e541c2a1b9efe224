//! Lines of the per-session log.

use vstd::prelude::*;
use vstd::string::StringExecFns;
use crate::text::{chars_of, push_str_chars};

verus! {

/// What can go wrong while logging.
#[derive(Debug)]
pub enum LogError {
    Open(std::io::Error),
    Write(std::io::Error),
    Poisoned,
}

pub open spec fn is_line_break(c: char) -> bool {
    c == '\r' || c == '\n'
}

/// The message with every carriage return and line feed turned into a space.
pub open spec fn sanitized(m: Seq<char>) -> Seq<char> {
    m.map_values(|c: char| if is_line_break(c) { ' ' } else { c })
}

/// One log line: timestamp, level in brackets, the message on one line, a line feed.
pub open spec fn log_line_text(timestamp: Seq<char>, level: Seq<char>, message: Seq<char>) -> Seq<
    char,
> {
    timestamp + " ["@ + level + "] "@ + sanitized(message) + "\n"@
}

pub fn log_line(timestamp: &str, level: &str, message: &str) -> (r: String)
    ensures
        r@ == log_line_text(timestamp@, level@, message@),
{
    let mut line = String::from_str(timestamp);
    line.append(" [");
    line.append(level);
    line.append("] ");
    let chars = chars_of(message);
    let mut clean: Vec<char> = Vec::new();
    let mut i: usize = 0;
    while i < chars.len()
        invariant
            i <= chars.len(),
            clean@ == sanitized(chars@).subrange(0, i as int),
        decreases chars.len() - i,
    {
        let c = chars[i];
        clean.push(
            if c == '\r' || c == '\n' {
                ' '
            } else {
                c
            },
        );
        i = i + 1;
        assert(clean@ =~= sanitized(chars@).subrange(0, i as int));
    }
    assert(clean@ =~= sanitized(message@));
    push_str_chars(&mut line, &clean);
    line.append("\n");
    line
}

/// A log line is one line: whatever the message holds, the only line break is the final
/// line feed, provided the timestamp and the level hold none.
pub proof fn lemma_log_line_is_one_line(timestamp: Seq<char>, level: Seq<char>, message: Seq<char>)
    requires
        forall|i: int| 0 <= i < timestamp.len() ==> !is_line_break(#[trigger] timestamp[i]),
        forall|i: int| 0 <= i < level.len() ==> !is_line_break(#[trigger] level[i]),
    ensures
        ({
            let line = log_line_text(timestamp, level, message);
            &&& line.len() > 0
            &&& line.last() == '\n'
            &&& forall|i: int| 0 <= i < line.len() - 1 ==> !is_line_break(#[trigger] line[i])
        }),
{
    reveal_strlit(" [");
    reveal_strlit("] ");
    reveal_strlit("\n");
    let line = log_line_text(timestamp, level, message);
    let body = timestamp + " ["@ + level + "] "@ + sanitized(message);
    assert(line =~= body + "\n"@);
    assert forall|i: int| 0 <= i < line.len() - 1 implies !is_line_break(#[trigger] line[i]) by {
        assert(line[i] == body[i]);
        let a = timestamp.len() as int;
        let b = a + 2;
        let c = b + level.len();
        let e = c + 2;
        if i < a {
            assert(body[i] == timestamp[i]);
        } else if i < b {
            assert(body[i] == " ["@[i - a]);
        } else if i < c {
            assert(body[i] == level[i - b]);
        } else if i < e {
            assert(body[i] == "] "@[i - c]);
        } else {
            assert(body[i] == sanitized(message)[i - e]);
        }
    }
}

} // verus!
