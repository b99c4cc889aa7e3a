//! The format's laws: parsing recovers what the renderer wrote (round-trip),
//! rendering is determined by the denoted mapping (rewrite determinism), and
//! file order and display order agree (sort determinism).

use vstd::prelude::*;
use crate::text::{find_char, is_ws_char, lemma_find_char_append, lemma_find_char_none,
    lemma_lex_lt_asym, lemma_trim_keeps_first, lemma_trim_noop, lex_lt,
    trim_spec};
use crate::store::{PropertyStore, lemma_map_of_absent, lemma_map_of_index,
    lemma_map_of_present, lemma_sorted_distinct, map_of, sorted_keys};
use crate::codec::{entry_line, generator_line, header_line, lemma_load_lines_push, line_term,
    lines_of, load_lines, load_text, parse_line, render_entries, render_spec, timestamp_line};

verus! {

/// An entry that the file format can carry faithfully: no `=` or newline in
/// the key, no newline in the value, a key that does not begin with
/// whitespace or `#`, and a value that does not end with whitespace.
pub open spec fn writable_entry(e: (Seq<char>, Seq<char>)) -> bool {
    find_char(e.0, '=') == -1 && find_char(e.0, '\n') == -1 && find_char(e.1, '\n') == -1 && (
    e.0.len() > 0 ==> !is_ws_char(e.0[0]) && e.0[0] != '#') && (e.1.len() > 0 ==> !is_ws_char(
        e.1.last(),
    ))
}

/// `find_char` on a one-character sequence.
proof fn lemma_find_char_singleton(c: char, d: char)
    ensures
        find_char(seq![c], d) == if c == d {
            0int
        } else {
            -1int
        },
{
    assert(seq![c].drop_first() =~= Seq::<char>::empty());
    assert(find_char(Seq::<char>::empty(), d) == -1);
}

/// A line that begins with `#` carries no data.
proof fn lemma_comment_line(l: Seq<char>)
    requires
        l.len() > 0,
        l[0] == '#',
    ensures
        parse_line(l) == None::<(Seq<char>, Seq<char>)>,
{
    assert(!is_ws_char('#'));
    lemma_trim_keeps_first(l);
}

/// An empty line carries no data.
proof fn lemma_empty_line()
    ensures
        parse_line(Seq::<char>::empty()) == None::<(Seq<char>, Seq<char>)>,
{
    assert(trim_spec(Seq::<char>::empty()).len() == 0);
}

/// The `key=value` line of a writable entry contains no newline.
proof fn lemma_entry_line_no_nl(e: (Seq<char>, Seq<char>))
    requires
        writable_entry(e),
    ensures
        find_char(entry_line(e), '\n') == -1,
{
    lemma_find_char_singleton('=', '\n');
    lemma_find_char_append(seq!['='], e.1, '\n');
    lemma_find_char_append(e.0, seq!['='] + e.1, '\n');
    assert(entry_line(e) =~= e.0 + (seq!['='] + e.1));
}

/// Parsing the `key=value` line of a writable entry recovers exactly that
/// entry.
pub proof fn lemma_parse_entry_line(e: (Seq<char>, Seq<char>))
    requires
        writable_entry(e),
    ensures
        parse_line(entry_line(e)) == Some((e.0, e.1)),
{
    let k = e.0;
    let v = e.1;
    let l = entry_line(e);
    assert(l =~= k + (seq!['='] + v));
    assert(!is_ws_char('='));
    assert(l.len() == k.len() + 1 + v.len());
    // the line's first and last characters are not whitespace, so trimming
    // does nothing
    if k.len() > 0 {
        assert(l[0] == k[0]);
    } else {
        assert(l[0] == '=');
    }
    if v.len() > 0 {
        assert(l.last() == v.last());
    } else {
        assert(l.last() == '=');
    }
    lemma_trim_noop(l);
    // the first `=` of the line stands right after the key
    assert((seq!['='] + v)[0] == '=');
    assert(find_char(seq!['='] + v, '=') == 0);
    lemma_find_char_append(k, seq!['='] + v, '=');
    assert(find_char(l, '=') == k.len());
    assert(l[0] != '#');
    assert(l.take(k.len() as int) =~= k);
    assert(l.skip(k.len() as int + 1) =~= v);
}

/// Splitting text at its newlines: a newline-free line followed by its
/// terminator and the remaining text yields that line, then the remaining
/// text's lines.
proof fn lemma_lines_of_line(a: Seq<char>, b: Seq<char>)
    requires
        find_char(a, '\n') == -1,
    ensures
        lines_of(line_term(a) + b) == seq![a] + lines_of(b),
{
    let whole = line_term(a) + b;
    assert(whole =~= a + (seq!['\n'] + b));
    assert((seq!['\n'] + b)[0] == '\n');
    assert(find_char(seq!['\n'] + b, '\n') == 0);
    lemma_find_char_append(a, seq!['\n'] + b, '\n');
    assert(find_char(whole, '\n') == a.len());
    assert(whole.take(a.len() as int) =~= a);
    assert(whole.skip(a.len() as int + 1) =~= b);
}

/// A leading line that carries no data does not change the denoted mapping.
proof fn lemma_load_lines_prepend_none(l: Seq<char>, ls: Seq<Seq<char>>)
    requires
        parse_line(l) == None::<(Seq<char>, Seq<char>)>,
    ensures
        load_lines(seq![l] + ls) == load_lines(ls),
    decreases ls.len(),
{
    if ls.len() == 0 {
        assert(seq![l] + ls =~= seq![l]);
        assert(seq![l].drop_last() =~= Seq::<Seq<char>>::empty());
        assert(seq![l].last() == l);
        assert(load_lines(Seq::<Seq<char>>::empty()) == Map::<Seq<char>, Seq<char>>::empty());
        assert(load_lines(ls) == Map::<Seq<char>, Seq<char>>::empty());
    } else {
        lemma_load_lines_prepend_none(l, ls.drop_last());
        assert((seq![l] + ls).drop_last() =~= seq![l] + ls.drop_last());
        assert((seq![l] + ls).last() == ls.last());
    }
}

/// The renderer's entry lines, read from the front: the first entry's line,
/// then the rest.
proof fn lemma_render_entries_first(es: Seq<(Seq<char>, Seq<char>)>)
    requires
        es.len() > 0,
    ensures
        render_entries(es) == line_term(entry_line(es[0])) + render_entries(es.drop_first()),
    decreases es.len(),
{
    if es.len() == 1 {
        assert(es.drop_last() =~= Seq::<(Seq<char>, Seq<char>)>::empty());
        assert(es.drop_first() =~= Seq::<(Seq<char>, Seq<char>)>::empty());
        assert(es.last() == es[0]);
        assert(Seq::<char>::empty() + line_term(entry_line(es[0])) =~= line_term(entry_line(es[0]))
            + Seq::<char>::empty());
    } else {
        lemma_render_entries_first(es.drop_last());
        assert(es.drop_last()[0] == es[0]);
        assert(es.drop_first().drop_last() =~= es.drop_last().drop_first());
        assert(es.drop_first().last() == es.last());
        assert(render_entries(es.drop_first()) == render_entries(es.drop_first().drop_last())
            + line_term(entry_line(es.drop_first().last())));
        assert((line_term(entry_line(es[0])) + render_entries(es.drop_last().drop_first()))
            + line_term(entry_line(es.last())) =~= line_term(entry_line(es[0])) + (render_entries(
            es.drop_last().drop_first(),
        ) + line_term(entry_line(es.last()))));
    }
}

/// The lines of the rendered entries: one `key=value` line per entry, in
/// order, and one final empty line after the last terminator.
proof fn lemma_lines_of_render_entries(es: Seq<(Seq<char>, Seq<char>)>)
    requires
        forall|i: int| 0 <= i < es.len() ==> writable_entry(#[trigger] es[i]),
    ensures
        lines_of(render_entries(es)).len() == es.len() + 1,
        forall|i: int|
            0 <= i < es.len() ==> lines_of(render_entries(es))[i] == entry_line(#[trigger] es[i]),
        lines_of(render_entries(es)).last() == Seq::<char>::empty(),
    decreases es.len(),
{
    if es.len() == 0 {
        assert(render_entries(es) == Seq::<char>::empty());
        assert(find_char(Seq::<char>::empty(), '\n') == -1);
        assert(lines_of(render_entries(es)) == seq![Seq::<char>::empty()]);
    } else {
        lemma_render_entries_first(es);
        lemma_entry_line_no_nl(es[0]);
        lemma_lines_of_line(entry_line(es[0]), render_entries(es.drop_first()));
        assert(forall|i: int|
            0 <= i < es.drop_first().len() ==> (#[trigger] es.drop_first()[i]) == es[i + 1]);
        lemma_lines_of_render_entries(es.drop_first());
        let ls = lines_of(render_entries(es));
        let rs = lines_of(render_entries(es.drop_first()));
        assert(ls == seq![entry_line(es[0])] + rs);
        assert forall|i: int| 0 <= i < es.len() implies ls[i] == entry_line(#[trigger] es[i]) by {
            if i > 0 {
                assert(ls[i] == rs[i - 1]);
                assert(rs[i - 1] == entry_line(es.drop_first()[i - 1]));
            }
        }
        assert(ls.last() == rs.last());
    }
}

/// Facts about the fixed header lines: they begin with `#`, contain no
/// newline, and carry no data.
proof fn lemma_header_facts()
    ensures
        find_char(header_line(), '\n') == -1,
        find_char(generator_line(), '\n') == -1,
        parse_line(header_line()) == None::<(Seq<char>, Seq<char>)>,
        parse_line(generator_line()) == None::<(Seq<char>, Seq<char>)>,
{
    reveal_strlit("#Minecraft server properties");
    reveal_strlit("#Generated/modified by MCON");
    assert(forall|j: int| 0 <= j < header_line().len() ==> header_line()[j] != '\n');
    assert(forall|j: int| 0 <= j < generator_line().len() ==> generator_line()[j] != '\n');
    lemma_find_char_none(header_line(), '\n');
    lemma_find_char_none(generator_line(), '\n');
    lemma_comment_line(header_line());
    lemma_comment_line(generator_line());
}

/// The timestamp's header line begins with `#`, and contains no newline when
/// the timestamp text does not.
proof fn lemma_timestamp_line_facts(ts: Seq<char>)
    requires
        find_char(ts, '\n') == -1,
    ensures
        find_char(timestamp_line(ts), '\n') == -1,
        parse_line(timestamp_line(ts)) == None::<(Seq<char>, Seq<char>)>,
{
    lemma_find_char_singleton('#', '\n');
    lemma_find_char_append(seq!['#'], ts, '\n');
    assert(timestamp_line(ts)[0] == '#');
    lemma_comment_line(timestamp_line(ts));
}

/// The lines of a full rendered file: the three header lines, the entries'
/// lines in order, and a final empty line.
pub proof fn lemma_lines_of_render(entries: Seq<(Seq<char>, Seq<char>)>, ts: Seq<char>)
    requires
        forall|i: int| 0 <= i < entries.len() ==> writable_entry(#[trigger] entries[i]),
        find_char(ts, '\n') == -1,
    ensures
        lines_of(render_spec(entries, ts)) == seq![header_line()] + (seq![timestamp_line(ts)] + (
        seq![generator_line()] + lines_of(render_entries(entries)))),
        lines_of(render_entries(entries)).len() == entries.len() + 1,
        forall|i: int|
            0 <= i < entries.len() ==> lines_of(render_entries(entries))[i] == entry_line(
                #[trigger] entries[i],
            ),
        lines_of(render_entries(entries)).last() == Seq::<char>::empty(),
{
    lemma_header_facts();
    lemma_timestamp_line_facts(ts);
    let rest2 = line_term(generator_line()) + render_entries(entries);
    let rest1 = line_term(timestamp_line(ts)) + rest2;
    assert(render_spec(entries, ts) =~= line_term(header_line()) + rest1);
    lemma_lines_of_line(header_line(), rest1);
    lemma_lines_of_line(timestamp_line(ts), rest2);
    lemma_lines_of_line(generator_line(), render_entries(entries));
    lemma_lines_of_render_entries(entries);
}

/// The mapping denoted by the entry lines of writable entries is the mapping
/// the entries denote.
proof fn lemma_load_entry_lines(entries: Seq<(Seq<char>, Seq<char>)>, ls: Seq<Seq<char>>)
    requires
        forall|i: int| 0 <= i < entries.len() ==> writable_entry(#[trigger] entries[i]),
        ls.len() == entries.len(),
        forall|i: int| 0 <= i < ls.len() ==> #[trigger] ls[i] == entry_line(entries[i]),
    ensures
        load_lines(ls) == map_of(entries),
    decreases entries.len(),
{
    if entries.len() > 0 {
        assert(forall|i: int|
            0 <= i < entries.drop_last().len() ==> (#[trigger] entries.drop_last()[i])
                == entries[i]);
        assert(forall|i: int|
            0 <= i < ls.drop_last().len() ==> (#[trigger] ls.drop_last()[i]) == ls[i]);
        lemma_load_entry_lines(entries.drop_last(), ls.drop_last());
        lemma_parse_entry_line(entries[entries.len() - 1]);
        assert(ls[ls.len() - 1] == entry_line(entries[entries.len() - 1]));
        assert(parse_line(ls.last()) == Some(
            (entries[entries.len() - 1].0, entries[entries.len() - 1].1),
        ));
    }
}

/// Round-trip: parsing what the renderer wrote for writable entries yields
/// exactly the mapping those entries denote, whatever the header timestamp
/// says, as long as it spans a single line.
pub proof fn lemma_round_trip(entries: Seq<(Seq<char>, Seq<char>)>, ts: Seq<char>)
    requires
        forall|i: int| 0 <= i < entries.len() ==> writable_entry(#[trigger] entries[i]),
        find_char(ts, '\n') == -1,
    ensures
        load_text(render_spec(entries, ts)) == map_of(entries),
{
    lemma_lines_of_render(entries, ts);
    lemma_header_facts();
    lemma_timestamp_line_facts(ts);
    let body = lines_of(render_entries(entries));
    lemma_load_lines_prepend_none(generator_line(), body);
    lemma_load_lines_prepend_none(timestamp_line(ts), seq![generator_line()] + body);
    lemma_load_lines_prepend_none(
        header_line(),
        seq![timestamp_line(ts)] + (seq![generator_line()] + body),
    );
    // the final empty line carries nothing
    let main = body.drop_last();
    assert(body =~= main.push(Seq::<char>::empty()));
    lemma_empty_line();
    lemma_load_lines_push(main, Seq::<char>::empty());
    assert(forall|i: int| 0 <= i < main.len() ==> #[trigger] main[i] == entry_line(entries[i]));
    lemma_load_entry_lines(entries, main);
}

/// Two sequences of entries, each in strictly ascending key order, that
/// denote the same mapping are the same sequence.
pub proof fn lemma_sorted_canonical(x: Seq<(Seq<char>, Seq<char>)>, y: Seq<(Seq<char>, Seq<char>)>)
    requires
        sorted_keys(x),
        sorted_keys(y),
        map_of(x) == map_of(y),
    ensures
        x == y,
    decreases x.len(),
{
    if x.len() == 0 {
        if y.len() > 0 {
            assert(map_of(y).contains_key(y.last().0));
        }
        assert(x =~= y);
    } else if y.len() == 0 {
        assert(map_of(x).contains_key(x.last().0));
        assert(x =~= y);
    } else {
        let kx = x.last().0;
        let ky = y.last().0;
        assert(map_of(x).contains_key(kx));
        assert(map_of(y).contains_key(ky));
        // the greatest key of each sequence is the other's, so they agree
        assert(kx == ky) by {
            lemma_map_of_present(y, kx);
            let j = choose|j: int| 0 <= j < y.len() && (#[trigger] y[j].0) == kx;
            lemma_map_of_present(x, ky);
            let i = choose|i: int| 0 <= i < x.len() && (#[trigger] x[i].0) == ky;
            if kx != ky {
                assert(j < y.len() - 1);
                assert(lex_lt(y[j].0, y[y.len() - 1].0));
                assert(i < x.len() - 1);
                assert(lex_lt(x[i].0, x[x.len() - 1].0));
                lemma_lex_lt_asym(kx, ky);
            }
        }
        lemma_sorted_distinct(x);
        lemma_sorted_distinct(y);
        lemma_map_of_index(x);
        lemma_map_of_index(y);
        assert(x[x.len() - 1].0 == kx);
        assert(map_of(x)[kx] == x.last().1);
        assert(y[y.len() - 1].0 == ky);
        assert(map_of(y)[ky] == y.last().1);
        assert(x.last() == y.last());
        // the remaining entries denote the map with that key removed
        assert(forall|i: int|
            0 <= i < x.drop_last().len() ==> (#[trigger] x.drop_last()[i]) == x[i]);
        assert(forall|i: int|
            0 <= i < y.drop_last().len() ==> (#[trigger] y.drop_last()[i]) == y[i]);
        lemma_map_of_absent(x.drop_last(), kx);
        lemma_map_of_absent(y.drop_last(), ky);
        assert(map_of(x.drop_last()) =~= map_of(x).remove(kx));
        assert(map_of(y.drop_last()) =~= map_of(y).remove(ky));
        lemma_sorted_canonical(x.drop_last(), y.drop_last());
        assert(x.len() == y.len());
        assert forall|i: int| 0 <= i < x.len() implies x[i] == y[i] by {
            if i < x.len() - 1 {
                assert(x[i] == x.drop_last()[i]);
                assert(y[i] == y.drop_last()[i]);
            }
        }
        assert(x =~= y);
    }
}

/// Rewrite determinism: any two well-formed stores denoting the same mapping
/// render byte-identically under the same header timestamp. In particular,
/// writing one store twice, holding the timestamp constant, produces
/// byte-identical output both times.
pub proof fn lemma_rewrite_deterministic(a: PropertyStore, b: PropertyStore, ts: Seq<char>)
    requires
        a.wf(),
        b.wf(),
        a.as_map() == b.as_map(),
    ensures
        render_spec(a.entry_seq(), ts) == render_spec(b.entry_seq(), ts),
{
    lemma_sorted_canonical(a.entry_seq(), b.entry_seq());
}

/// Sort determinism: the written file presents exactly one `key=value` line
/// per entry, in the store's order — the order `sorted_entries` also
/// reports for display — and that shared key order is strictly ascending.
pub proof fn lemma_sort_determinism(store: PropertyStore, ts: Seq<char>)
    requires
        store.wf(),
        forall|i: int|
            0 <= i < store.entry_seq().len() ==> writable_entry(#[trigger] store.entry_seq()[i]),
        find_char(ts, '\n') == -1,
    ensures
        forall|i: int, j: int|
            0 <= i < j < store.entry_seq().len() ==> lex_lt(
                (#[trigger] store.entry_seq()[i]).0,
                (#[trigger] store.entry_seq()[j]).0,
            ),
        lines_of(render_spec(store.entry_seq(), ts)).len() == store.entry_seq().len() + 4,
        forall|i: int|
            0 <= i < store.entry_seq().len() ==> lines_of(render_spec(store.entry_seq(), ts))[i
                + 3] == entry_line(#[trigger] store.entry_seq()[i]),
{
    lemma_lines_of_render(store.entry_seq(), ts);
    let ls = lines_of(render_spec(store.entry_seq(), ts));
    let body = lines_of(render_entries(store.entry_seq()));
    assert(ls.len() == store.entry_seq().len() + 4);
    assert forall|i: int| 0 <= i < store.entry_seq().len() implies ls[i + 3] == entry_line(
        #[trigger] store.entry_seq()[i],
    ) by {
        assert(ls[i + 3] == body[i]);
    }
}

} // verus!
