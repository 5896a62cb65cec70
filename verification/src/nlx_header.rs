use vstd::prelude::*;
use vstd::pervasive::unreached;
use vstd::slice::{slice_index_get, slice_subrange};
use crate::errors::CscError;
use crate::utilities::{byte_to_char, bytes_to_chars, from_ut8_unaligned};

verus! {

/// Byte length of the fixed text header frame at the start of every file.
pub const NLX_HEADER_SIZE: usize = 16384;

/// Index of the first occurrence of `c` in `s`, or `s.len()` when absent.
pub open spec fn find_char(s: Seq<char>, c: char) -> int
    decreases s.len(),
{
    if s.len() == 0 {
        0
    } else if s[0] == c {
        0
    } else {
        1 + find_char(s.drop_first(), c)
    }
}

/// `find_char` returns the one index with nothing equal to `c` before it and
/// either `c` at it or the end of the sequence.
pub proof fn lemma_find_char_unique(s: Seq<char>, c: char, i: int)
    requires
        0 <= i <= s.len(),
        forall|k: int| 0 <= k < i ==> s[k] != c,
        i < s.len() ==> s[i] == c,
    ensures
        find_char(s, c) == i,
    decreases s.len(),
{
    if s.len() > 0 && s[0] != c {
        assert(forall|k: int| 0 <= k < s.drop_first().len() ==> s.drop_first()[k] == s[k + 1]);
        lemma_find_char_unique(s.drop_first(), c, i - 1);
    }
}

/// The lines of `s`: split at every newline, with a carriage return stripped
/// from the end of each newline-terminated piece; the final line needs no
/// terminator, and a trailing terminator opens no empty final line.
pub open spec fn spec_lines(s: Seq<char>) -> Seq<Seq<char>>
    decreases s.len(),
{
    if s.len() == 0 {
        Seq::empty()
    } else {
        let i = find_char(s, '\n');
        if 0 <= i < s.len() {
            let raw = s.take(i);
            let line = if raw.len() > 0 && raw.last() == '\r' {
                raw.drop_last()
            } else {
                raw
            };
            seq![line] + spec_lines(s.skip(i + 1))
        } else {
            seq![s]
        }
    }
}

/// The key/value pair a header line contributes: the text between the leading
/// marker and the first space, and everything after that space. Lines without
/// the marker or without a space contribute nothing.
pub open spec fn spec_parse_line(line: Seq<char>) -> Option<(Seq<char>, Seq<char>)> {
    if line.len() == 0 || line[0] != '-' {
        None
    } else {
        let sp = find_char(line, ' ');
        if sp < line.len() {
            Some((line.subrange(1, sp), line.subrange(sp + 1, line.len() as int)))
        } else {
            None
        }
    }
}

/// The mapping the lines build up, later keys overwriting earlier ones.
pub open spec fn map_of_lines(lines: Seq<Seq<char>>) -> Map<Seq<char>, Seq<char>>
    decreases lines.len(),
{
    if lines.len() == 0 {
        Map::empty()
    } else {
        let m = map_of_lines(lines.drop_last());
        match spec_parse_line(lines.last()) {
            Some(kv) => m.insert(kv.0, kv.1),
            None => m,
        }
    }
}

/// The key-to-value mapping held by a header frame's bytes.
pub open spec fn spec_parse_header(b: Seq<u8>) -> Map<Seq<char>, Seq<char>> {
    map_of_lines(spec_lines(bytes_to_chars(b)))
}

/// The mapping an association list denotes, later entries overwriting earlier
/// ones.
pub open spec fn assoc_map(entries: Seq<(String, String)>) -> Map<Seq<char>, Seq<char>>
    decreases entries.len(),
{
    if entries.len() == 0 {
        Map::empty()
    } else {
        assoc_map(entries.drop_last()).insert(entries.last().0@, entries.last().1@)
    }
}

/// No two entries share a key.
pub open spec fn unique_keys(entries: Seq<(String, String)>) -> bool {
    forall|i: int, j: int| 0 <= i < j < entries.len() ==> entries[i].0@ != entries[j].0@
}

/// Overwriting the one entry that holds a key denotes the same mapping as
/// inserting that key.
proof fn lemma_assoc_update(entries: Seq<(String, String)>, i: int, e: (String, String))
    requires
        unique_keys(entries),
        0 <= i < entries.len(),
        entries[i].0@ == e.0@,
    ensures
        assoc_map(entries.update(i, e)) == assoc_map(entries).insert(e.0@, e.1@),
        unique_keys(entries.update(i, e)),
    decreases entries.len(),
{
    let updated = entries.update(i, e);
    assert(unique_keys(updated)) by {
        assert(forall|k: int| 0 <= k < updated.len() ==> updated[k].0@ == entries[k].0@);
    }
    if i == entries.len() - 1 {
        assert(updated.drop_last() =~= entries.drop_last());
        assert(assoc_map(updated) =~= assoc_map(entries).insert(e.0@, e.1@));
    } else {
        let front = entries.drop_last();
        let last = entries.last();
        assert(updated.drop_last() =~= front.update(i, e));
        assert(updated.last() == last);
        lemma_assoc_update(front, i, e);
        assert(last.0@ != e.0@);
        assert(assoc_map(front).insert(e.0@, e.1@).insert(last.0@, last.1@) =~= assoc_map(
            front,
        ).insert(last.0@, last.1@).insert(e.0@, e.1@));
    }
}

/// Inserts a key/value pair, overwriting the entry that already holds the key
/// if there is one.
fn dict_insert(dict: &mut Vec<(String, String)>, key: String, value: String)
    requires
        unique_keys(old(dict)@),
    ensures
        unique_keys(final(dict)@),
        assoc_map(final(dict)@) == assoc_map(old(dict)@).insert(key@, value@),
{
    let ghost k = key@;
    let ghost v = value@;
    let n = dict.len();
    let mut i: usize = 0;
    while i < n
        invariant
            i <= n,
            n == dict@.len(),
            dict@ == old(dict)@,
            unique_keys(dict@),
            k == key@,
            v == value@,
            forall|j: int| 0 <= j < i ==> dict@[j].0@ != k,
        decreases n - i,
    {
        let hit = dict[i].0.eq(&key);
        if hit {
            proof {
                lemma_assoc_update(dict@, i as int, (key, value));
            }
            dict[i] = (key, value);
            return;
        }
        i = i + 1;
    }
    dict.push((key, value));
    proof {
        assert(dict@.drop_last() =~= old(dict)@);
        assert(unique_keys(dict@)) by {
            assert(forall|j: int| 0 <= j < old(dict)@.len() ==> dict@[j].0@ == old(dict)@[j].0@);
        }
    }
}

/// The parsed text header: a key-to-value mapping, keys unique.
#[derive(Debug, PartialEq)]
pub struct NlxHeader {
    pub dict: Vec<(String, String)>,
}

impl View for NlxHeader {
    type V = Map<Seq<char>, Seq<char>>;

    open spec fn view(&self) -> Map<Seq<char>, Seq<char>> {
        assoc_map(self.dict@)
    }
}

impl NlxHeader {
    /// The header's entries never share a key.
    pub open spec fn wf(&self) -> bool {
        unique_keys(self.dict@)
    }

    /// The empty header.
    pub fn new() -> (r: NlxHeader)
        ensures
            r.wf(),
            r@ == Map::<Seq<char>, Seq<char>>::empty(),
            r.dict@.len() == 0,
    {
        NlxHeader { dict: Vec::new() }
    }

    /// Parses header bytes, one character per byte: lines that carry the
    /// leading marker and a space contribute a key/value entry, later keys
    /// overwriting earlier ones; every other line is skipped. Never fails.
    pub fn deserialize(data: &[u8]) -> (r: Result<NlxHeader, CscError>)
        ensures
            r is Ok,
            r->Ok_0.wf(),
            r->Ok_0@ == spec_parse_header(data@),
    {
        let ghost s = bytes_to_chars(data@);
        let mut dict: Vec<(String, String)> = Vec::new();
        let ghost mut done: Seq<Seq<char>> = Seq::empty();
        proof {
            assert(s.skip(0) =~= s);
            assert(spec_lines(s) =~= done + spec_lines(s.skip(0)));
        }
        let mut pos: usize = 0;
        while pos < data.len()
            invariant
                pos <= data@.len(),
                s == bytes_to_chars(data@),
                spec_lines(s) == done + spec_lines(s.skip(pos as int)),
                unique_keys(dict@),
                assoc_map(dict@) == map_of_lines(done),
            decreases data@.len() - pos,
        {
            let ghost rest = s.skip(pos as int);
            // Scan to the end of the current line.
            let mut j: usize = pos;
            while j < data.len() && *slice_index_get(data, j) != 10u8
                invariant
                    pos <= j <= data@.len(),
                    forall|k: int| pos <= k < j ==> data@[k] != 10u8,
                decreases data@.len() - j,
            {
                j = j + 1;
            }
            let terminated = j < data.len();
            proof {
                assert forall|k: int| 0 <= k < j - pos implies rest[k] != '\n' by {
                    assert(rest[k] == byte_to_char(data@[pos + k]));
                    assert(data@[pos + k] != 10u8);
                }
                if terminated {
                    assert(rest[j - pos] == byte_to_char(data@[j as int]));
                    assert(rest[j - pos] == '\n');
                }
                lemma_find_char_unique(rest, '\n', j - pos);
            }
            // Strip the carriage return of a newline-terminated line.
            let lend: usize = if terminated && j > pos && *slice_index_get(data, j - 1) == 13u8 {
                j - 1
            } else {
                j
            };
            let ghost line = s.subrange(pos as int, lend as int);
            proof {
                let i_nl = find_char(rest, '\n');
                assert(i_nl == j - pos);
                let raw = rest.take(i_nl);
                assert(raw =~= s.subrange(pos as int, j as int));
                if terminated {
                    if j > pos && data@[j - 1] == 13u8 {
                        assert(raw.last() == byte_to_char(data@[j - 1]));
                        assert(raw.last() == '\r');
                        assert(raw.drop_last() =~= line);
                        assert(spec_lines(rest) == seq![line] + spec_lines(rest.skip(i_nl + 1)));
                    } else {
                        if raw.len() > 0 {
                            assert(raw.last() == byte_to_char(data@[j - 1]));
                            assert(raw.last() != '\r') by {
                                if byte_to_char(data@[j - 1]) == '\r' {
                                    assert(data@[j - 1] == 13u8);
                                }
                            }
                        }
                        assert(raw =~= line);
                        assert(spec_lines(rest) == seq![line] + spec_lines(rest.skip(i_nl + 1)));
                    }
                    assert(rest.skip(i_nl + 1) =~= s.skip(j + 1));
                } else {
                    assert(j == data@.len());
                    assert(rest.len() > 0);
                    assert(i_nl == rest.len());
                    assert(line =~= rest);
                    assert(spec_lines(rest) == seq![line]);
                    assert(s.skip(j as int).len() == 0);
                    assert(spec_lines(s.skip(j as int)) =~= Seq::<Seq<char>>::empty());
                    assert(spec_lines(rest) =~= seq![line] + spec_lines(s.skip(j as int)));
                }
            }
            // Parse the line: marker, then key up to the first space, then value.
            if lend > pos && *slice_index_get(data, pos) == 45u8 {
                proof {
                    assert(line[0] == byte_to_char(data@[pos as int]));
                    assert(line[0] == '-');
                }
                let mut m: usize = pos + 1;
                while m < lend && *slice_index_get(data, m) != 32u8
                    invariant
                        pos + 1 <= m <= lend,
                        lend <= data@.len(),
                        forall|k: int| pos < k < m ==> data@[k] != 32u8,
                    decreases lend - m,
                {
                    m = m + 1;
                }
                proof {
                    assert forall|k: int| 0 <= k < m - pos implies line[k] != ' ' by {
                        if k == 0 {
                            assert(line[0] == '-');
                        } else {
                            assert(line[k] == byte_to_char(data@[pos + k]));
                            assert(data@[pos + k] != 32u8);
                        }
                    }
                    if m < lend {
                        assert(line[m - pos] == byte_to_char(data@[m as int]));
                        assert(line[m - pos] == ' ');
                    }
                    lemma_find_char_unique(line, ' ', m - pos);
                }
                if m < lend {
                    let key = match from_ut8_unaligned(slice_subrange(data, pos + 1, m)) {
                        Ok(k) => k,
                        Err(_) => unreached(),
                    };
                    let value = match from_ut8_unaligned(slice_subrange(data, m + 1, lend)) {
                        Ok(v) => v,
                        Err(_) => unreached(),
                    };
                    proof {
                        assert(key@ =~= line.subrange(1, m - pos));
                        assert(value@ =~= line.subrange(m - pos + 1, line.len() as int));
                        assert(spec_parse_line(line) == Some((key@, value@)));
                    }
                    dict_insert(&mut dict, key, value);
                    proof {
                        let old_done = done;
                        done = done.push(line);
                        assert(done.drop_last() =~= old_done);
                        assert(map_of_lines(done) == map_of_lines(old_done).insert(key@, value@));
                    }
                } else {
                    proof {
                        assert(spec_parse_line(line) is None);
                        let old_done = done;
                        done = done.push(line);
                        assert(done.drop_last() =~= old_done);
                        assert(map_of_lines(done) == map_of_lines(old_done));
                    }
                }
            } else {
                proof {
                    if lend > pos {
                        assert(line[0] == byte_to_char(data@[pos as int]));
                        assert(line[0] != '-') by {
                            if byte_to_char(data@[pos as int]) == '-' {
                                assert(data@[pos as int] == 45u8);
                            }
                        }
                    }
                    assert(spec_parse_line(line) is None);
                    let old_done = done;
                    done = done.push(line);
                    assert(done.drop_last() =~= old_done);
                    assert(map_of_lines(done) == map_of_lines(old_done));
                }
            }
            proof {
                let new_pos: int = if terminated {
                    j + 1
                } else {
                    j as int
                };
                assert(spec_lines(s) =~= done + spec_lines(s.skip(new_pos)));
            }
            pos = if terminated {
                j + 1
            } else {
                j
            };
        }
        proof {
            assert(s.skip(pos as int).len() == 0);
            assert(spec_lines(s.skip(pos as int)) =~= Seq::<Seq<char>>::empty());
            assert(spec_lines(s) =~= done);
        }
        Ok(NlxHeader { dict })
    }
}

} // verus!
