//! The on-disk format: parsing a properties file's text into a store, and
//! rendering a store back as deterministic, sorted `key=value` lines under a
//! three-line comment header.

use vstd::prelude::*;
use crate::store::PropertyStore;
use crate::text::{find_char, find_char_in, lemma_find_char_props, trim_spec, trim_str};

verus! {

/// What one line of the file contributes: `None` for a blank line, a comment,
/// or a line without `=`; otherwise the key before the first `=` of the
/// trimmed line and the value after it, both taken verbatim.
pub open spec fn parse_line(line: Seq<char>) -> Option<(Seq<char>, Seq<char>)> {
    let t = trim_spec(line);
    if t.len() == 0 || t[0] == '#' {
        None
    } else if find_char(t, '=') == -1 {
        None
    } else {
        Some((t.take(find_char(t, '=')), t.skip(find_char(t, '=') + 1)))
    }
}

/// The mapping a sequence of lines denotes: later lines override earlier ones
/// of the same key.
pub open spec fn load_lines(lines: Seq<Seq<char>>) -> Map<Seq<char>, Seq<char>>
    decreases lines.len(),
{
    if lines.len() == 0 {
        Map::empty()
    } else {
        match parse_line(lines.last()) {
            Some(kv) => load_lines(lines.drop_last()).insert(kv.0, kv.1),
            None => load_lines(lines.drop_last()),
        }
    }
}

/// `text` split at each newline; the terminator is not part of any line, and
/// text after the last newline forms a final line.
pub open spec fn lines_of(text: Seq<char>) -> Seq<Seq<char>>
    decreases text.len(),
    via lines_of_decreases
{
    if find_char(text, '\n') == -1 {
        seq![text]
    } else {
        seq![text.take(find_char(text, '\n'))] + lines_of(text.skip(find_char(text, '\n') + 1))
    }
}

#[via_fn]
proof fn lines_of_decreases(text: Seq<char>) {
    lemma_find_char_props(text, '\n');
}

/// The mapping a whole file's text denotes.
pub open spec fn load_text(text: Seq<char>) -> Map<Seq<char>, Seq<char>> {
    load_lines(lines_of(text))
}

/// Appending a line to a sequence of lines applies that line's contribution
/// to the denoted mapping.
pub proof fn lemma_load_lines_push(lines: Seq<Seq<char>>, l: Seq<char>)
    ensures
        load_lines(lines.push(l)) == match parse_line(l) {
            Some(kv) => load_lines(lines).insert(kv.0, kv.1),
            None => load_lines(lines),
        },
{
    assert(lines.push(l).drop_last() =~= lines);
    assert(lines.push(l).last() == l);
}

/// Applies one file line to the store: inserts the line's key and value, or
/// leaves the store unchanged for a blank, comment, or separator-free line.
fn apply_line(store: &mut PropertyStore, line: &str)
    requires
        old(store).wf(),
    ensures
        final(store).wf(),
        final(store).as_map() == match parse_line(line@) {
            Some(kv) => old(store).as_map().insert(kv.0, kv.1),
            None => old(store).as_map(),
        },
{
    let t = trim_str(line);
    let tlen = t.unicode_len();
    if tlen == 0 {
        return ;
    }
    if t.get_char(0) == '#' {
        return ;
    }
    match find_char_in(t, '=') {
        None => {},
        Some(i) => {
            let key = t.substring_char(0, i).to_owned();
            let value = t.substring_char(i + 1, tlen).to_owned();
            proof {
                let tt = trim_spec(line@);
                assert(key@ =~= tt.take(find_char(tt, '=')));
                assert(value@ =~= tt.skip(find_char(tt, '=') + 1));
            }
            store.insert(key, value);
        },
    }
}

/// Parses a properties file's text: blank lines, `#` comments, and lines
/// without `=` carry no data; every other line binds the text before its
/// first `=` (after trimming the whole line) to the text after it, and the
/// last line with a given key wins.
pub fn parse_properties(text: &str) -> (store: PropertyStore)
    ensures
        store.wf(),
        store.as_map() == load_text(text@),
{
    let mut store = PropertyStore::new();
    let mut rest: &str = text;
    let ghost mut done: Seq<Seq<char>> = Seq::empty();
    proof {
        assert(done + lines_of(text@) =~= lines_of(text@));
    }
    loop
        invariant
            store.wf(),
            lines_of(text@) == done + lines_of(rest@),
            store.as_map() == load_lines(done),
        decreases rest@.len(),
    {
        match find_char_in(rest, '\n') {
            Some(i) => {
                let line = rest.substring_char(0, i);
                let len = rest.unicode_len();
                let next = rest.substring_char(i + 1, len);
                apply_line(&mut store, line);
                proof {
                    assert(line@ =~= rest@.take(i as int));
                    assert(next@ =~= rest@.skip(i + 1));
                    assert(lines_of(rest@) == seq![line@] + lines_of(next@));
                    lemma_load_lines_push(done, line@);
                    done = done.push(line@);
                    assert(lines_of(text@) =~= done + lines_of(next@));
                }
                rest = next;
            },
            None => {
                apply_line(&mut store, rest);
                proof {
                    assert(lines_of(rest@) == seq![rest@]);
                    lemma_load_lines_push(done, rest@);
                    done = done.push(rest@);
                    assert(lines_of(text@) =~= done);
                }
                return store;
            },
        }
    }
}

/// The fixed first header line, without its terminating newline.
pub open spec fn header_line() -> Seq<char> {
    "#Minecraft server properties"@
}

/// The fixed third header line, without its terminating newline.
pub open spec fn generator_line() -> Seq<char> {
    "#Generated/modified by MCON"@
}

/// The second header line: the timestamp as a comment, without its
/// terminating newline.
pub open spec fn timestamp_line(ts: Seq<char>) -> Seq<char> {
    seq!['#'] + ts
}

/// A line with its terminating newline.
pub open spec fn line_term(s: Seq<char>) -> Seq<char> {
    s + seq!['\n']
}

/// One `key=value` line, without its terminating newline.
pub open spec fn entry_line(e: (Seq<char>, Seq<char>)) -> Seq<char> {
    e.0 + seq!['='] + e.1
}

/// The `key=value` lines of the given entries, in the given order, each
/// newline-terminated.
pub open spec fn render_entries(entries: Seq<(Seq<char>, Seq<char>)>) -> Seq<char>
    decreases entries.len(),
{
    if entries.len() == 0 {
        Seq::empty()
    } else {
        render_entries(entries.drop_last()) + line_term(entry_line(entries.last()))
    }
}

/// The full text written for the given entries and header timestamp: three
/// `#` header lines, then one `key=value` line per entry, in entry order.
pub open spec fn render_spec(entries: Seq<(Seq<char>, Seq<char>)>, ts: Seq<char>) -> Seq<char> {
    line_term(header_line()) + line_term(timestamp_line(ts)) + line_term(generator_line())
        + render_entries(entries)
}

/// Renders the store with the given header timestamp. The output is a
/// function of the store's entries and the timestamp alone, so equal stores
/// render identically.
pub fn render_properties(store: &PropertyStore, timestamp: &str) -> (out: String)
    requires
        store.wf(),
    ensures
        out@ == render_spec(store.entry_seq(), timestamp@),
{
    let mut out = String::new();
    out.append("#Minecraft server properties");
    out.append("\n");
    out.append("#");
    out.append(timestamp);
    out.append("\n");
    out.append("#Generated/modified by MCON");
    out.append("\n");
    let ghost prefix = out@;
    proof {
        reveal_strlit("#Minecraft server properties");
        reveal_strlit("#Generated/modified by MCON");
        reveal_strlit("#");
        reveal_strlit("\n");
        assert("#"@ =~= seq!['#']);
        assert("\n"@ =~= seq!['\n']);
        assert(prefix =~= line_term(header_line()) + line_term(timestamp_line(timestamp@))
            + line_term(generator_line()));
    }
    let ghost es = store.entry_seq();
    let mut i: usize = 0;
    proof {
        assert(es.take(0) =~= Seq::<(Seq<char>, Seq<char>)>::empty());
        assert(out@ =~= prefix + render_entries(es.take(0)));
    }
    while i < store.entries.len()
        invariant
            es == store.entry_seq(),
            0 <= i <= es.len(),
            prefix == line_term(header_line()) + line_term(timestamp_line(timestamp@)) + line_term(
                generator_line(),
            ),
            out@ == prefix + render_entries(es.take(i as int)),
        decreases es.len() - i,
    {
        out.append(store.entries[i].0.as_str());
        out.append("=");
        out.append(store.entries[i].1.as_str());
        out.append("\n");
        proof {
            reveal_strlit("=");
            reveal_strlit("\n");
            assert("="@ =~= seq!['=']);
            assert("\n"@ =~= seq!['\n']);
            assert(es.take(i + 1).drop_last() =~= es.take(i as int));
            assert(es.take(i + 1).last() == es[i as int]);
            assert(es[i as int] == (store.entries@[i as int].0@, store.entries@[i as int].1@));
            assert(out@ =~= prefix + render_entries(es.take(i + 1)));
        }
        i = i + 1;
    }
    proof {
        assert(es.take(i as int) =~= es);
    }
    out
}

/// Relies on chrono's `Local::now` and `DateTime::format` for the header's
/// human-readable local timestamp; nothing is assumed about the text they
/// produce, since it depends on the clock and the local time zone.
#[verifier::external_body]
fn current_timestamp() -> (r: String) {
    chrono::Local::now().format("%a %b %d %H:%M:%S %Z %Y").to_string()
}

/// Renders the store under a header carrying the current local time: the
/// output is `render_spec` of the store's entries and some timestamp text.
pub fn render_properties_now(store: &PropertyStore) -> (out: String)
    requires
        store.wf(),
    ensures
        exists|ts: Seq<char>| out@ == render_spec(store.entry_seq(), ts),
{
    let ts = current_timestamp();
    let out = render_properties(store, ts.as_str());
    proof {
        assert(out@ == render_spec(store.entry_seq(), ts@));
    }
    out
}

/// What a `key=value` command-line override denotes: `None` for a token
/// without `=`; otherwise the text before the first `=` and the text after
/// it, both taken verbatim, with no trimming.
pub open spec fn split_arg(arg: Seq<char>) -> Option<(Seq<char>, Seq<char>)> {
    if find_char(arg, '=') == -1 {
        None
    } else {
        Some((arg.take(find_char(arg, '=')), arg.skip(find_char(arg, '=') + 1)))
    }
}

/// Splits a command-line override token at its first `=`, or reports `None`
/// for a malformed token without one.
pub fn parse_override(arg: &str) -> (r: Option<(String, String)>)
    ensures
        match r {
            Some(kv) => split_arg(arg@) == Some((kv.0@, kv.1@)),
            None => split_arg(arg@) == None::<(Seq<char>, Seq<char>)>,
        },
{
    match find_char_in(arg, '=') {
        None => None,
        Some(i) => {
            let len = arg.unicode_len();
            let key = arg.substring_char(0, i).to_owned();
            let value = arg.substring_char(i + 1, len).to_owned();
            proof {
                assert(key@ =~= arg@.take(find_char(arg@, '=')));
                assert(value@ =~= arg@.skip(find_char(arg@, '=') + 1));
            }
            Some((key, value))
        },
    }
}

} // verus!
