//! The durable wrapper around the eviction engine, and the line-oriented
//! `key=value` text encoding its saved state uses.
//!
//! The wrapper itself does no file I/O — the embedding program reads the
//! saved text before constructing it and writes [`PersistentCache::serialized`]
//! after every mutation. What is verified here is everything the format
//! means: how a cache state is rendered to text, how text is parsed back, and
//! that the two round-trip.

use vstd::prelude::*;
use vstd::std_specs::iter::IteratorSpec;
use vstd::hash_map::HashMapWithView;
use vstd::std_specs::hash::obeys_key_model;
use crate::cache::memory::MemoryCache;
use crate::engine::node::Node;
use crate::engine::traits::Cache;
use crate::error::CacheError;
use crate::model::{
    contains_key, find_key, lemma_find_key, lemma_promote_entries, lemma_put_model_entries,
    lemma_remove_model_entries, promote, put_model, remove_model,
};

verus! {

broadcast use vstd::string::axiom_spec_iter, vstd::string::next_postcondition;

/// The index of the first occurrence of `c` in `s`, or -1 when there is none.
pub open spec fn find_char(s: Seq<char>, c: char) -> int
    decreases s.len(),
{
    if s.len() == 0 {
        -1
    } else if s[0] == c {
        0
    } else {
        let rest = find_char(s.drop_first(), c);
        if rest < 0 {
            -1
        } else {
            rest + 1
        }
    }
}

/// What `find_char` finds: a nonnegative answer is the first index holding
/// the character, a negative answer means no index does.
pub proof fn lemma_find_char(s: Seq<char>, c: char)
    ensures
        find_char(s, c) >= 0 ==> {
            &&& find_char(s, c) < s.len()
            &&& s[find_char(s, c)] == c
            &&& forall|j: int| 0 <= j < find_char(s, c) ==> s[j] != c
        },
        find_char(s, c) < 0 ==> forall|j: int| 0 <= j < s.len() ==> s[j] != c,
    decreases s.len(),
{
    if s.len() > 0 && s[0] != c {
        let rest = s.drop_first();
        lemma_find_char(rest, c);
        assert(forall|j: int| 0 <= j < rest.len() ==> rest[j] == s[j + 1]);
        if find_char(s, c) >= 0 {
            let r = find_char(rest, c);
            assert(s[r + 1] == rest[r]);
            assert forall|j: int| 0 <= j < find_char(s, c) implies s[j] != c by {
                if j > 0 {
                    assert(s[j] == rest[j - 1]);
                }
            }
        } else {
            assert forall|j: int| 0 <= j < s.len() implies s[j] != c by {
                if j > 0 {
                    assert(s[j] == rest[j - 1]);
                }
            }
        }
    }
}

/// The first occurrence is the index before which the character is absent.
pub proof fn lemma_find_char_at(s: Seq<char>, c: char, i: int)
    requires
        0 <= i < s.len(),
        s[i] == c,
        forall|j: int| 0 <= j < i ==> s[j] != c,
    ensures
        find_char(s, c) == i,
{
    lemma_find_char(s, c);
}

/// A key the text encoding can carry: no delimiter, no record terminator.
pub open spec fn valid_key(k: Seq<char>) -> bool {
    forall|i: int| 0 <= i < k.len() ==> k[i] != '=' && k[i] != '\n'
}

/// A value the text encoding can carry: no record terminator.
pub open spec fn valid_value(v: Seq<char>) -> bool {
    forall|i: int| 0 <= i < v.len() ==> v[i] != '\n'
}

/// A record the text encoding can carry.
pub open spec fn valid_record(r: (Seq<char>, Seq<char>)) -> bool {
    valid_key(r.0) && valid_value(r.1)
}

/// Every record of the sequence is encodable.
pub open spec fn valid_records(rs: Seq<(Seq<char>, Seq<char>)>) -> bool {
    forall|i: int| 0 <= i < rs.len() ==> valid_record(#[trigger] rs[i])
}

/// One line of the saved file: `key=value` and a terminating newline.
pub open spec fn encode_record(r: (Seq<char>, Seq<char>)) -> Seq<char> {
    r.0 + seq!['='] + r.1 + seq!['\n']
}

/// The whole saved file: one line per record, in the records' order.
pub open spec fn encode_records(rs: Seq<(Seq<char>, Seq<char>)>) -> Seq<char>
    decreases rs.len(),
{
    if rs.len() == 0 {
        Seq::empty()
    } else {
        encode_record(rs[0]) + encode_records(rs.drop_first())
    }
}

/// One line read back: the first `=` splits key from value; a line without
/// `=` is malformed.
pub open spec fn parse_line(line: Seq<char>) -> Option<(Seq<char>, Seq<char>)> {
    let eq = find_char(line, '=');
    if eq < 0 {
        None
    } else {
        Some((line.take(eq), line.skip(eq + 1)))
    }
}

/// The whole saved text read back, line by line; a final line without a
/// terminating newline is still a record, and any malformed line spoils the
/// whole text.
pub open spec fn parse_records(text: Seq<char>) -> Option<Seq<(Seq<char>, Seq<char>)>>
    decreases text.len(),
    via parse_records_decreases
{
    if text.len() == 0 {
        Some(Seq::empty())
    } else {
        let nl = find_char(text, '\n');
        if nl < 0 {
            match parse_line(text) {
                None => None,
                Some(r) => Some(seq![r]),
            }
        } else {
            match parse_line(text.take(nl)) {
                None => None,
                Some(r) => match parse_records(text.skip(nl + 1)) {
                    None => None,
                    Some(rest) => Some(seq![r] + rest),
                },
            }
        }
    }
}

#[via_fn]
proof fn parse_records_decreases(text: Seq<char>) {
    if text.len() > 0 {
        lemma_find_char(text, '\n');
    }
}

/// The views of a vector of owned string pairs.
pub open spec fn records_view(rs: Seq<(String, String)>) -> Seq<(Seq<char>, Seq<char>)> {
    Seq::new(rs.len(), |i: int| (rs[i].0@, rs[i].1@))
}

/// Encoding one more record appends one more line.
pub proof fn lemma_encode_snoc(rs: Seq<(Seq<char>, Seq<char>)>, r: (Seq<char>, Seq<char>))
    ensures
        encode_records(rs.push(r)) == encode_records(rs) + encode_record(r),
    decreases rs.len(),
{
    if rs.len() == 0 {
        assert(rs.push(r)[0] == r);
        assert(rs.push(r).drop_first() =~= Seq::<(Seq<char>, Seq<char>)>::empty());
        assert(encode_records(rs.push(r).drop_first()) == Seq::<char>::empty());
        assert(encode_records(rs.push(r)) == encode_record(r) + Seq::<char>::empty());
        assert(encode_records(rs) == Seq::<char>::empty());
        assert(encode_record(r) + Seq::<char>::empty() =~= Seq::<char>::empty() + encode_record(
            r,
        ));
    } else {
        assert(rs.push(r)[0] == rs[0]);
        assert(rs.push(r).drop_first() =~= rs.drop_first().push(r));
        lemma_encode_snoc(rs.drop_first(), r);
        assert(encode_records(rs.push(r)) == encode_record(rs[0]) + (encode_records(
            rs.drop_first(),
        ) + encode_record(r)));
        assert(encode_record(rs[0]) + (encode_records(rs.drop_first()) + encode_record(r))
            =~= (encode_record(rs[0]) + encode_records(rs.drop_first())) + encode_record(r));
    }
}

/// Parsing undoes encoding: a sequence of encodable records read back is
/// itself.
pub proof fn lemma_round_trip(rs: Seq<(Seq<char>, Seq<char>)>)
    requires
        valid_records(rs),
    ensures
        parse_records(encode_records(rs)) == Some(rs),
    decreases rs.len(),
{
    if rs.len() == 0 {
    } else {
        let r = rs[0];
        let line = r.0 + seq!['='] + r.1;
        let text = encode_records(rs);
        let rest = encode_records(rs.drop_first());
        assert(text == encode_record(r) + rest);
        assert(encode_record(r) == line + seq!['\n']);
        assert(text.len() == line.len() + 1 + rest.len());
        assert forall|j: int| 0 <= j < line.len() implies text[j] == line[j] && line[j] != '\n' by {
            if j < r.0.len() {
                assert(line[j] == r.0[j]);
            } else if j == r.0.len() {
                assert(line[j] == '=');
            } else {
                assert(line[j] == r.1[j - r.0.len() - 1]);
            }
        }
        assert(text[line.len() as int] == '\n');
        lemma_find_char_at(text, '\n', line.len() as int);
        assert(text.take(line.len() as int) =~= line);
        assert(text.skip(line.len() as int + 1) =~= rest);
        assert(line[r.0.len() as int] == '=');
        assert forall|j: int| 0 <= j < r.0.len() implies line[j] != '=' by {
            assert(line[j] == r.0[j]);
        }
        lemma_find_char_at(line, '=', r.0.len() as int);
        assert(line.take(r.0.len() as int) =~= r.0);
        assert(line.skip(r.0.len() as int + 1) =~= r.1);
        assert(parse_line(line) == Some(r));
        assert(valid_records(rs.drop_first())) by {
            assert forall|i: int| 0 <= i < rs.drop_first().len() implies valid_record(
                #[trigger] rs.drop_first()[i],
            ) by {
                assert(rs.drop_first()[i] == rs[i + 1]);
            }
        }
        lemma_round_trip(rs.drop_first());
        assert(text.len() > 0);
        assert(find_char(text, '\n') == line.len());
        assert(parse_records(text) == Some(seq![r] + rs.drop_first()));
        assert(seq![r] + rs.drop_first() =~= rs);
    }
}

/// Whatever parsing accepts, it could encode again: parsed records are
/// encodable.
pub proof fn lemma_parse_valid(text: Seq<char>)
    ensures
        parse_records(text) matches Some(rs) ==> valid_records(rs),
    decreases text.len(),
{
    if text.len() > 0 {
        lemma_find_char(text, '\n');
        let nl = find_char(text, '\n');
        if nl < 0 {
            if parse_line(text) is Some {
                let eq = find_char(text, '=');
                lemma_find_char(text, '=');
                let r = (text.take(eq), text.skip(eq + 1));
                assert(valid_record(r)) by {
                    assert forall|i: int| 0 <= i < r.0.len() implies r.0[i] != '=' && r.0[i]
                        != '\n' by {
                        assert(r.0[i] == text[i]);
                    }
                    assert forall|i: int| 0 <= i < r.1.len() implies r.1[i] != '\n' by {
                        assert(r.1[i] == text[eq + 1 + i]);
                    }
                }
                assert(parse_records(text) == Some(seq![r]));
                assert forall|i: int|
                    0 <= i < seq![r].len() implies valid_record(#[trigger] seq![r][i]) by {
                    assert(seq![r][i] == r);
                }
            }
        } else {
            let line = text.take(nl);
            assert(forall|j: int| 0 <= j < line.len() ==> line[j] == text[j]);
            if parse_line(line) is Some {
                let eq = find_char(line, '=');
                lemma_find_char(line, '=');
                let r = (line.take(eq), line.skip(eq + 1));
                assert(valid_record(r)) by {
                    assert forall|i: int| 0 <= i < r.0.len() implies r.0[i] != '=' && r.0[i]
                        != '\n' by {
                        assert(r.0[i] == line[i]);
                    }
                    assert forall|i: int| 0 <= i < r.1.len() implies r.1[i] != '\n' by {
                        assert(r.1[i] == line[eq + 1 + i]);
                    }
                }
                lemma_parse_valid(text.skip(nl + 1));
                match parse_records(text.skip(nl + 1)) {
                    Some(rest) => {
                        assert forall|i: int|
                            0 <= i < (seq![r] + rest).len() implies valid_record(
                            #[trigger] (seq![r] + rest)[i],
                        ) by {
                            if i == 0 {
                                assert((seq![r] + rest)[0] == r);
                            } else {
                                assert((seq![r] + rest)[i] == rest[i - 1]);
                            }
                        }
                    },
                    None => {
                    },
                }
            }
        }
    }
}

/// Relies on `String::push`: appends exactly the one character.
#[verifier::external_body]
fn push_char(s: &mut String, c: char)
    ensures
        final(s)@ == old(s)@.push(c),
{
    s.push(c);
}

/// Relies on `String::push_str`: appends exactly the slice's characters.
#[verifier::external_body]
fn push_chunk(s: &mut String, chunk: &str)
    ensures
        final(s)@ == old(s)@ + chunk@,
{
    s.push_str(chunk);
}

/// Whether `c` occurs in `s`, decided character by character.
fn scan_for(s: &str, c: char) -> (found: bool)
    ensures
        found == (find_char(s@, c) >= 0),
{
    proof {
        lemma_find_char(s@, c);
    }
    let mut it = s.chars();
    let ghost mut n: int = 0;
    loop
        invariant
            0 <= n <= s@.len(),
            it.remaining() == s@.skip(n),
            forall|j: int| 0 <= j < n ==> s@[j] != c,
            find_char(s@, c) >= 0 ==> {
                &&& find_char(s@, c) < s@.len()
                &&& s@[find_char(s@, c)] == c
            },
            find_char(s@, c) < 0 ==> forall|j: int| 0 <= j < s@.len() ==> s@[j] != c,
        decreases s@.len() - n,
    {
        match it.next() {
            None => {
                return false;
            },
            Some(x) => {
                proof {
                    assert(s@.skip(n)[0] == s@[n]);
                }
                if x == c {
                    proof {
                        lemma_find_char_at(s@, c, n);
                    }
                    return true;
                }
                proof {
                    n = n + 1;
                }
            },
        }
    }
}

/// The record views of a cache model: keys are already views, values are
/// taken to theirs.
pub open spec fn pairs_view(m: Seq<(Seq<char>, String)>) -> Seq<(Seq<char>, Seq<char>)> {
    Seq::new(m.len(), |i: int| (m[i].0, m[i].1@))
}

/// Every entry of the model is encodable.
pub open spec fn valid_model(m: Seq<(Seq<char>, String)>) -> bool {
    forall|i: int| 0 <= i < m.len() ==> valid_record(#[trigger] pairs_view(m)[i])
}

/// The model that replaying the records as `put`s, in order, leaves behind:
/// the last record ends up most recently used.
pub open spec fn replay(rs: Seq<(Seq<char>, Seq<char>)>, capacity: int) -> Seq<
    (Seq<char>, Seq<char>),
>
    decreases rs.len(),
{
    if rs.len() == 0 {
        Seq::empty()
    } else {
        put_model(replay(rs.drop_last(), capacity), capacity, rs.last().0, rs.last().1)
    }
}

/// Taking record views changes no key, so it moves `find_key` not at all.
proof fn lemma_find_key_view(m: Seq<(Seq<char>, String)>, k: Seq<char>)
    ensures
        find_key(pairs_view(m), k) == find_key(m, k),
    decreases m.len(),
{
    if m.len() > 0 && m[0].0 != k {
        lemma_find_key_view(m.drop_first(), k);
        assert(pairs_view(m).drop_first() =~= pairs_view(m.drop_first()));
    }
}

/// A `put` step commutes with taking record views.
proof fn lemma_put_view_commutes(m: Seq<(Seq<char>, String)>, cap: int, k: Seq<char>, v: String)
    ensures
        pairs_view(put_model(m, cap, k, v)) == put_model(pairs_view(m), cap, k, v@),
{
    lemma_find_key_view(m, k);
    lemma_find_key(m, k);
    let pv = pairs_view(m);
    if contains_key(m, k) {
        let i = find_key(m, k);
        m.remove_ensures(i);
        pv.remove_ensures(i);
        m.remove(i).insert_ensures(0, (k, v));
        pv.remove(i).insert_ensures(0, (k, v@));
        assert(pairs_view(m.remove(i).insert(0, (k, v))) =~= pv.remove(i).insert(0, (k, v@))) by {
            assert forall|j: int|
                0 <= j < m.len() implies pairs_view(m.remove(i).insert(0, (k, v)))[j]
                == pv.remove(i).insert(0, (k, v@))[j] by {
                if j > 0 {
                    assert(m.remove(i)[j - 1] == (if j - 1 < i {
                        m[j - 1]
                    } else {
                        m[j]
                    }));
                    assert(pv.remove(i)[j - 1] == (if j - 1 < i {
                        pv[j - 1]
                    } else {
                        pv[j]
                    }));
                }
            }
        }
    } else {
        let grown = m.insert(0, (k, v));
        let pgrown = pv.insert(0, (k, v@));
        m.insert_ensures(0, (k, v));
        pv.insert_ensures(0, (k, v@));
        assert(pairs_view(grown) =~= pgrown) by {
            assert forall|j: int| 0 <= j < grown.len() implies pairs_view(grown)[j] == pgrown[j] by {
                if j > 0 {
                    assert(grown[j] == m[j - 1]);
                    assert(pgrown[j] == pv[j - 1]);
                }
            }
        }
        if grown.len() > cap {
            assert(pairs_view(grown.drop_last()) =~= pgrown.drop_last()) by {
                assert forall|j: int|
                    0 <= j < grown.len() - 1 implies pairs_view(grown.drop_last())[j]
                    == pgrown.drop_last()[j] by {
                    assert(grown.drop_last()[j] == grown[j]);
                }
            }
        }
    }
}

/// Read a saved text back into its records: one `key=value` record per line,
/// the first `=` the delimiter. Any line without `=` — an empty line included
/// — fails the whole parse.
pub fn parse_saved(text: &str) -> (result: Result<Vec<(String, String)>, CacheError>)
    ensures
        match result {
            Ok(records) => parse_records(text@) == Some(records_view(records@)),
            Err(e) => parse_records(text@) is None && e is ParseError,
        },
{
    let mut out: Vec<(String, String)> = Vec::new();
    let mut key_buf = String::new();
    let mut val_buf = String::new();
    let mut seen_eq = false;
    let mut it = text.chars();
    let ghost mut n: int = 0;
    let ghost mut line_start: int = 0;
    loop
        invariant
            0 <= line_start <= n <= text@.len(),
            it.remaining() == text@.skip(n),
            seen_eq ==> text@.subrange(line_start, n) == key_buf@ + seq!['='] + val_buf@,
            !seen_eq ==> text@.subrange(line_start, n) == key_buf@,
            !seen_eq ==> val_buf@ == Seq::<char>::empty(),
            forall|j: int| line_start <= j < n ==> text@[j] != '\n',
            forall|j: int| 0 <= j < key_buf@.len() ==> key_buf@[j] != '=',
            parse_records(text@) == opt_cat(
                records_view(out@),
                parse_records(text@.skip(line_start)),
            ),
        decreases text@.len() - n,
    {
        match it.next() {
            None => {
                proof {
                    assert(n == text@.len());
                }
                if !seen_eq && key_buf.as_str().is_empty() {
                    proof {
                        assert(text@.subrange(line_start, n).len() == 0);
                        assert(line_start == n);
                        assert(text@.skip(line_start).len() == 0);
                        assert(parse_records(text@.skip(line_start))
                            == Some(Seq::<(Seq<char>, Seq<char>)>::empty()));
                        assert(records_view(out@) + Seq::<(Seq<char>, Seq<char>)>::empty()
                            =~= records_view(out@));
                    }
                    return Ok(out);
                }
                let ghost tail = text@.skip(line_start);
                proof {
                    assert(tail =~= text@.subrange(line_start, n));
                    assert(tail.len() > 0);
                    assert forall|j: int| 0 <= j < tail.len() implies tail[j] != '\n' by {
                        assert(tail[j] == text@[line_start + j]);
                    }
                    lemma_find_char(tail, '\n');
                    assert(find_char(tail, '\n') < 0);
                }
                if seen_eq {
                    proof {
                        let kl = key_buf@.len() as int;
                        assert(tail[kl] == '=');
                        assert forall|j: int| 0 <= j < kl implies tail[j] != '=' by {
                            assert(tail[j] == key_buf@[j]);
                        }
                        lemma_find_char_at(tail, '=', kl);
                        assert(tail.take(kl) =~= key_buf@);
                        assert(tail.skip(kl + 1) =~= val_buf@);
                        assert(parse_line(tail) == Some((key_buf@, val_buf@)));
                        assert(parse_records(tail) == Some(seq![(key_buf@, val_buf@)]));
                    }
                    let ghost old_out = out@;
                    let pair = (key_buf, val_buf);
                    out.push(pair);
                    proof {
                        assert(records_view(out@) =~= records_view(old_out).push(
                            (pair.0@, pair.1@),
                        ));
                        assert(records_view(old_out) + seq![(pair.0@, pair.1@)] =~= records_view(
                            out@,
                        ));
                    }
                    return Ok(out);
                }
                proof {
                    assert forall|j: int| 0 <= j < tail.len() implies tail[j] != '=' by {
                        assert(tail[j] == key_buf@[j]);
                    }
                    lemma_find_char(tail, '=');
                    assert(find_char(tail, '=') < 0);
                    assert(parse_line(tail) is None);
                    assert(parse_records(tail) is None);
                    assert(parse_records(text@) is None);
                }
                return Err(CacheError::ParseError("malformed record: missing '='".to_owned()));
            },
            Some(c) => {
                proof {
                    assert(text@.skip(n)[0] == text@[n]);
                    assert(c == text@[n]);
                    assert(text@.skip(n).drop_first() =~= text@.skip(n + 1));
                }
                if c == '\n' {
                    let ghost tail = text@.skip(line_start);
                    let ghost line = text@.subrange(line_start, n);
                    proof {
                        assert(tail.len() == text@.len() - line_start);
                        assert(n - line_start < tail.len());
                        assert(tail[n - line_start] == '\n');
                        assert forall|j: int| 0 <= j < n - line_start implies tail[j] != '\n' by {
                            assert(tail[j] == text@[line_start + j]);
                        }
                        lemma_find_char_at(tail, '\n', n - line_start);
                        assert(tail.take(n - line_start) =~= line);
                        assert(tail.skip(n - line_start + 1) =~= text@.skip(n + 1));
                    }
                    if !seen_eq {
                        proof {
                            assert forall|j: int| 0 <= j < line.len() implies line[j] != '=' by {
                                assert(line[j] == key_buf@[j]);
                            }
                            lemma_find_char(line, '=');
                            assert(parse_line(line) is None);
                            assert(parse_records(tail) is None);
                            assert(parse_records(text@) is None);
                        }
                        return Err(
                            CacheError::ParseError("malformed record: missing '='".to_owned()),
                        );
                    }
                    proof {
                        let kl = key_buf@.len() as int;
                        assert(line[kl] == '=');
                        assert forall|j: int| 0 <= j < kl implies line[j] != '=' by {
                            assert(line[j] == key_buf@[j]);
                        }
                        lemma_find_char_at(line, '=', kl);
                        assert(line.take(kl) =~= key_buf@);
                        assert(line.skip(kl + 1) =~= val_buf@);
                        assert(parse_line(line) == Some((key_buf@, val_buf@)));
                    }
                    let ghost old_out = out@;
                    let pair = (key_buf, val_buf);
                    out.push(pair);
                    key_buf = String::new();
                    val_buf = String::new();
                    seen_eq = false;
                    proof {
                        assert(records_view(out@) =~= records_view(old_out).push(
                            (pair.0@, pair.1@),
                        ));
                        match parse_records(text@.skip(n + 1)) {
                            Some(rest) => {
                                assert(parse_records(tail) == Some(
                                    seq![(pair.0@, pair.1@)] + rest,
                                ));
                                assert(records_view(old_out) + (seq![(pair.0@, pair.1@)] + rest)
                                    =~= records_view(out@) + rest);
                            },
                            None => {
                                assert(parse_records(tail) is None);
                            },
                        }
                        n = n + 1;
                        line_start = n;
                        assert(text@.subrange(line_start, n) =~= key_buf@);
                    }
                } else if c == '=' && !seen_eq {
                    seen_eq = true;
                    proof {
                        assert(text@.subrange(line_start, n + 1) =~= key_buf@ + seq!['=']
                            + val_buf@);
                        n = n + 1;
                    }
                } else if seen_eq {
                    push_char(&mut val_buf, c);
                    proof {
                        assert(text@.subrange(line_start, n + 1) =~= key_buf@ + seq!['=']
                            + val_buf@);
                        n = n + 1;
                    }
                } else {
                    push_char(&mut key_buf, c);
                    proof {
                        assert(text@.subrange(line_start, n + 1) =~= key_buf@);
                        n = n + 1;
                    }
                }
            },
        }
    }
}

/// Records glued in front of an optional tail of records.
spec fn opt_cat(
    done: Seq<(Seq<char>, Seq<char>)>,
    rest: Option<Seq<(Seq<char>, Seq<char>)>>,
) -> Option<Seq<(Seq<char>, Seq<char>)>> {
    match rest {
        None => None,
        Some(t) => Some(done + t),
    }
}

/// The durable wrapper: one eviction engine plus the path its state is saved
/// under.
///
/// All recency state lives in the engine; the saved file is a derived
/// projection that the embedding program rewrites from
/// [`PersistentCache::serialized`] after every mutation. A failed write is
/// reported by the embedding program but never rolls the applied mutation
/// back, so the engine and the file may diverge until the next successful
/// write.
pub struct PersistentCache {
    memory_cache: MemoryCache<String, String>,
    file_path: String,
}

impl View for PersistentCache {
    type V = Seq<(Seq<char>, String)>;

    closed spec fn view(&self) -> Self::V {
        self.memory_cache@
    }
}

impl PersistentCache {
    /// The capacity the engine was built with.
    pub closed spec fn spec_capacity(self) -> usize {
        self.memory_cache.spec_capacity()
    }

    /// The path the saved text belongs to.
    pub closed spec fn spec_file_path(self) -> Seq<char> {
        self.file_path@
    }

    /// The engine is well formed and every entry survives the text encoding.
    pub closed spec fn inv(self) -> bool {
        &&& self.memory_cache.wf()
        &&& valid_model(self@)
    }

    /// What the invariant gives a caller: the model's keys are distinct, the
    /// model fits the capacity, and every entry survives the text encoding.
    pub proof fn lemma_inv_facts(self)
        requires
            self.inv(),
        ensures
            crate::model::distinct_keys(pairs_view(self@)),
            pairs_view(self@).len() <= self.spec_capacity(),
            valid_records(pairs_view(self@)),
    {
        self.memory_cache.lemma_model_facts();
        assert(crate::model::distinct_keys(pairs_view(self@))) by {
            assert forall|i: int, j: int|
                0 <= i < j < pairs_view(self@).len() implies pairs_view(self@)[i].0 != pairs_view(
                self@,
            )[j].0 by {
                assert(pairs_view(self@)[i].0 == self@[i].0);
                assert(pairs_view(self@)[j].0 == self@[j].0);
            }
        }
    }

    /// Rebuild a cache from a saved text: parse the records and replay them
    /// as `put`s in file order, so the file's last line becomes the most
    /// recently used entry. `None` stands for a file that does not exist yet
    /// and gives an empty cache. The two premises are what the engine's hash
    /// index asks of `String` keys.
    pub fn open(capacity: usize, file_path: String, contents: Option<&str>) -> (result: Result<
        Self,
        CacheError,
    >)
        requires
            obeys_key_model::<String>(),
            forall|k1: String, k2: String| k1@ == k2@ ==> k1 == k2,
        ensures
            match result {
                Ok(cache) => {
                    &&& cache.inv()
                    &&& cache.spec_capacity() == capacity
                    &&& cache.spec_file_path() == file_path@
                    &&& match contents {
                        None => cache@ == Seq::<(Seq<char>, String)>::empty(),
                        Some(text) => parse_records(text@) matches Some(rs) && pairs_view(cache@)
                            == replay(rs, capacity as int),
                    }
                },
                Err(e) => match contents {
                    None => false,
                    Some(text) => (e is ParseError && parse_records(text@) is None) || (
                    e is CapacityError && capacity == 0 && (parse_records(text@) matches Some(rs)
                        && rs.len() > 0)),
                },
            },
    {
        let mut memory_cache = MemoryCache::<String, String>::new(capacity);
        if contents.is_none() {
            let cache = Self { memory_cache, file_path };
            proof {
                assert(valid_model(cache@));
            }
            return Ok(cache);
        }
        let text = contents.unwrap();
        let records = match parse_saved(text) {
            Ok(records) => records,
            Err(e) => {
                return Err(e);
            },
        };
        proof {
            lemma_parse_valid(text@);
        }
        let ghost rs = records_view(records@);
        let mut j: usize = 0;
        proof {
            assert(pairs_view(memory_cache@) =~= replay(rs.take(0), capacity as int));
        }
        while j < records.len()
            invariant
                0 <= j <= records@.len(),
                memory_cache.wf(),
                memory_cache.spec_capacity() == capacity,
                contents == Some(text),
                rs == records_view(records@),
                parse_records(text@) == Some(rs),
                valid_records(rs),
                pairs_view(memory_cache@) == replay(rs.take(j as int), capacity as int),
                valid_model(memory_cache@),
            decreases records@.len() - j,
        {
            let key = records[j].0.clone();
            let value = records[j].1.clone();
            let ghost m_before = memory_cache@;
            let ghost kv = key@;
            let ghost vv = value@;
            proof {
                assert(rs[j as int] == (kv, vv));
            }
            match memory_cache.put(key, value) {
                Ok(_) => {},
                Err(e) => {
                    proof {
                        assert(capacity == 0);
                        assert(rs.len() > 0);
                    }
                    return Err(e);
                },
            }
            proof {
                lemma_put_view_commutes(m_before, capacity as int, kv, value);
                assert(rs.take(j + 1).drop_last() =~= rs.take(j as int));
                assert(rs.take(j + 1).last() == rs[j as int]);
                assert(pairs_view(memory_cache@) == replay(rs.take(j + 1), capacity as int));
                assert(valid_model(memory_cache@)) by {
                    lemma_put_model_entries(m_before, capacity as int, kv, value);
                    assert forall|i: int| 0 <= i < memory_cache@.len() implies valid_record(
                        #[trigger] pairs_view(memory_cache@)[i],
                    ) by {
                        let entry = memory_cache@[i];
                        if entry == (kv, value) {
                            assert(valid_record(rs[j as int]));
                        } else {
                            assert(m_before.contains(entry));
                            let b = choose|b: int|
                                0 <= b < m_before.len() && m_before[b] == entry;
                            assert(valid_record(pairs_view(m_before)[b]));
                        }
                    }
                }
            }
            j = j + 1;
        }
        proof {
            assert(rs.take(records@.len() as int) =~= rs);
        }
        let cache = Self { memory_cache, file_path };
        Ok(cache)
    }

    /// Look a key up in the engine; no file is touched.
    pub fn get(&mut self, key: &String) -> (result: Option<&String>)
        requires
            old(self).inv(),
        ensures
            final(self).inv(),
            final(self).spec_capacity() == old(self).spec_capacity(),
            final(self).spec_file_path() == old(self).spec_file_path(),
            match result {
                Some(v) => {
                    &&& contains_key(old(self)@, key@)
                    &&& *v == old(self)@[find_key(old(self)@, key@)].1
                    &&& final(self)@ == promote(old(self)@, key@)
                },
                None => {
                    &&& !contains_key(old(self)@, key@)
                    &&& final(self)@ == old(self)@
                },
            },
    {
        let result = self.memory_cache.get(key);
        proof {
            if contains_key(old(self)@, key@) {
                lemma_promote_entries(old(self)@, key@);
                let m1 = promote(old(self)@, key@);
                assert forall|i: int| 0 <= i < m1.len() implies valid_record(
                    #[trigger] pairs_view(m1)[i],
                ) by {
                    let entry = m1[i];
                    let b = choose|b: int| 0 <= b < old(self)@.len() && old(self)@[b] == entry;
                    assert(valid_record(pairs_view(old(self)@)[b]));
                }
                assert(valid_model(m1));
            }
        }
        result
    }

    /// Insert a key/value pair into the engine. Beyond the engine's capacity
    /// error, a key holding `=` or a newline, or a value holding a newline,
    /// is rejected with a serialization error: the saved text could not carry
    /// it.
    pub fn put(&mut self, key: String, value: String) -> (result: Result<(), CacheError>)
        requires
            old(self).inv(),
        ensures
            final(self).inv(),
            final(self).spec_capacity() == old(self).spec_capacity(),
            final(self).spec_file_path() == old(self).spec_file_path(),
            match result {
                Ok(_) => {
                    &&& old(self).spec_capacity() > 0
                    &&& valid_record((key@, value@))
                    &&& final(self)@ == put_model(
                        old(self)@,
                        old(self).spec_capacity() as int,
                        key@,
                        value,
                    )
                },
                Err(e) => {
                    &&& final(self)@ == old(self)@
                    &&& (e is CapacityError && old(self).spec_capacity() == 0) || (
                    e is SerializationError && old(self).spec_capacity() > 0 && !valid_record(
                        (key@, value@),
                    ))
                },
            },
    {
        if self.memory_cache.capacity() == 0 {
            return Err(CacheError::CapacityError("cache capacity cannot be 0".to_owned()));
        }
        let key_ok = !scan_for(key.as_str(), '=') && !scan_for(key.as_str(), '\n');
        let value_ok = !scan_for(value.as_str(), '\n');
        proof {
            lemma_find_char(key@, '=');
            lemma_find_char(key@, '\n');
            lemma_find_char(value@, '\n');
            if find_char(key@, '=') >= 0 || find_char(key@, '\n') >= 0 || find_char(value@, '\n')
                >= 0 {
                assert(!valid_record((key@, value@)));
            } else {
                assert(valid_record((key@, value@)));
            }
        }
        if !key_ok || !value_ok {
            return Err(
                CacheError::SerializationError(
                    "key or value cannot be saved as a key=value line".to_owned(),
                ),
            );
        }
        let ghost m0 = self@;
        let ghost kv = key@;
        let result = self.memory_cache.put(key, value);
        proof {
            lemma_put_model_entries(m0, old(self).spec_capacity() as int, kv, value);
            assert forall|i: int| 0 <= i < self@.len() implies valid_record(
                #[trigger] pairs_view(self@)[i],
            ) by {
                let entry = self@[i];
                if entry != (kv, value) {
                    assert(m0.contains(entry));
                    let b = choose|b: int| 0 <= b < m0.len() && m0[b] == entry;
                    assert(valid_record(pairs_view(m0)[b]));
                }
            }
        }
        result
    }

    /// Take a key's entry out of the engine and return its value.
    pub fn remove(&mut self, key: &String) -> (result: Option<String>)
        requires
            old(self).inv(),
        ensures
            final(self).inv(),
            final(self).spec_capacity() == old(self).spec_capacity(),
            final(self).spec_file_path() == old(self).spec_file_path(),
            final(self)@ == remove_model(old(self)@, key@),
            match result {
                Some(v) => contains_key(old(self)@, key@) && v == old(self)@[find_key(
                    old(self)@,
                    key@,
                )].1,
                None => !contains_key(old(self)@, key@),
            },
    {
        let ghost m0 = self@;
        let result = self.memory_cache.remove(key);
        proof {
            lemma_remove_model_entries(m0, key@);
            assert forall|i: int| 0 <= i < self@.len() implies valid_record(
                #[trigger] pairs_view(self@)[i],
            ) by {
                let entry = self@[i];
                assert(m0.contains(entry));
                let b = choose|b: int| 0 <= b < m0.len() && m0[b] == entry;
                assert(valid_record(pairs_view(m0)[b]));
            }
        }
        result
    }

    /// Drop every entry from the engine.
    pub fn clear(&mut self)
        requires
            old(self).inv(),
        ensures
            final(self).inv(),
            final(self).spec_capacity() == old(self).spec_capacity(),
            final(self).spec_file_path() == old(self).spec_file_path(),
            final(self)@ == Seq::<(Seq<char>, String)>::empty(),
    {
        self.memory_cache.clear();
    }

    /// How many entries are live.
    pub fn len(&self) -> (n: usize)
        requires
            self.inv(),
        ensures
            n == self@.len(),
    {
        self.memory_cache.len()
    }

    /// How many entries the cache can hold.
    pub fn capacity(&self) -> (c: usize)
        ensures
            c == self.spec_capacity(),
    {
        self.memory_cache.capacity()
    }

    /// Whether no entry is live.
    pub fn is_empty(&self) -> (empty: bool)
        requires
            self.inv(),
        ensures
            empty == (self@.len() == 0),
    {
        self.memory_cache.is_empty()
    }

    /// The engine's index, for read-only inspection.
    pub fn get_all(&self) -> (all: &HashMapWithView<String, Node<String, String>>)
        requires
            self.inv(),
        ensures
            all@.len() == self@.len(),
    {
        self.memory_cache.get_all()
    }

    /// The path the saved text belongs to.
    pub fn file_path(&self) -> (path: &String)
        ensures
            path@ == self.spec_file_path(),
    {
        &self.file_path
    }

    /// The live entries as owned pairs, most recently used first.
    pub fn snapshot(&self) -> (pairs: Vec<(String, String)>)
        requires
            self.inv(),
        ensures
            records_view(pairs@) == pairs_view(self@),
    {
        let borrowed = self.memory_cache.snapshot();
        let mut pairs: Vec<(String, String)> = Vec::new();
        let mut j: usize = 0;
        while j < borrowed.len()
            invariant
                0 <= j <= borrowed@.len(),
                borrowed@.len() == self@.len(),
                forall|i: int|
                    0 <= i < borrowed@.len() ==> (#[trigger] borrowed@[i]).0@ == self@[i].0
                        && *borrowed@[i].1 == self@[i].1,
                pairs@.len() == j,
                forall|i: int|
                    0 <= i < j ==> (#[trigger] pairs@[i]).0@ == self@[i].0 && pairs@[i].1
                        == self@[i].1,
            decreases borrowed@.len() - j,
        {
            let (k, v) = borrowed[j];
            pairs.push((k.clone(), v.clone()));
            j = j + 1;
        }
        proof {
            assert(records_view(pairs@) =~= pairs_view(self@));
        }
        pairs
    }

    /// The whole saved text for the current state: the serialized snapshot,
    /// most recently used first, one `key=value` line per entry. The
    /// embedding program writes this over the file after every mutation.
    pub fn serialized(&self) -> (text: String)
        requires
            self.inv(),
        ensures
            text@ == encode_records(pairs_view(self@)),
            parse_records(text@) == Some(pairs_view(self@)),
    {
        let pairs = self.memory_cache.snapshot();
        let mut text = String::new();
        let mut j: usize = 0;
        proof {
            assert(pairs_view(self@).take(0) =~= Seq::<(Seq<char>, Seq<char>)>::empty());
        }
        while j < pairs.len()
            invariant
                0 <= j <= pairs@.len(),
                pairs@.len() == self@.len(),
                forall|i: int|
                    0 <= i < pairs@.len() ==> (#[trigger] pairs@[i]).0@ == self@[i].0
                        && *pairs@[i].1 == self@[i].1,
                text@ == encode_records(pairs_view(self@).take(j as int)),
            decreases pairs@.len() - j,
        {
            let (k, v) = pairs[j];
            push_chunk(&mut text, k.as_str());
            push_char(&mut text, '=');
            push_chunk(&mut text, v.as_str());
            push_char(&mut text, '\n');
            proof {
                let pv = pairs_view(self@);
                lemma_encode_snoc(pv.take(j as int), pv[j as int]);
                assert(pv.take(j + 1) =~= pv.take(j as int).push(pv[j as int]));
                assert(text@ =~= encode_records(pv.take(j as int)) + encode_record(pv[j as int]));
            }
            j = j + 1;
        }
        proof {
            assert(pairs_view(self@).take(self@.len() as int) =~= pairs_view(self@));
            lemma_round_trip(pairs_view(self@));
        }
        text
    }
}


impl Cache<String, String> for PersistentCache {
    open spec fn model(&self) -> Seq<(Seq<char>, String)> {
        self@
    }

    open spec fn inv(&self) -> bool {
        PersistentCache::inv(*self)
    }

    open spec fn slots(&self) -> int {
        self.spec_capacity() as int
    }

    fn get(&mut self, key: &String) -> (result: Option<&String>) {
        PersistentCache::get(self, key)
    }

    fn get_all(&self) -> (all: &HashMapWithView<String, Node<String, String>>) {
        PersistentCache::get_all(self)
    }

    fn put(&mut self, key: String, value: String) -> (result: Result<(), CacheError>) {
        PersistentCache::put(self, key, value)
    }

    fn remove(&mut self, key: &String) -> (result: Option<String>) {
        PersistentCache::remove(self, key)
    }

    fn clear(&mut self) {
        PersistentCache::clear(self)
    }

    fn len(&self) -> (n: usize) {
        PersistentCache::len(self)
    }

    fn is_empty(&self) -> (empty: bool) {
        PersistentCache::is_empty(self)
    }

    fn capacity(&self) -> (c: usize) {
        PersistentCache::capacity(self)
    }
}

} // verus!
