//! Alphabets for the textual cipher: an ordered sequence of symbols, looked
//! up with last-match-wins semantics, and the parser that reads one from a
//! comma-separated line of text.

use vstd::prelude::*;

verus! {

/// Index of the last occurrence of `c` in `a`, or -1 when `c` is absent.
pub open spec fn lookup_index(a: Seq<char>, c: char) -> int
    decreases a.len(),
{
    if a.len() == 0 {
        -1
    } else if a.last() == c {
        a.len() - 1
    } else {
        lookup_index(a.drop_last(), c)
    }
}

/// The lookup lands inside the alphabet, and on an occurrence of the symbol.
pub proof fn lemma_lookup_index_bounds(a: Seq<char>, c: char)
    ensures
        -1 <= lookup_index(a, c) < a.len(),
        lookup_index(a, c) >= 0 ==> a[lookup_index(a, c)] == c,
    decreases a.len(),
{
    if a.len() != 0 && a.last() != c {
        lemma_lookup_index_bounds(a.drop_last(), c);
    }
}

/// No symbol occurs twice.
pub open spec fn distinct(a: Seq<char>) -> bool {
    forall|i: int, j: int| 0 <= i < j < a.len() ==> a[i] != a[j]
}

/// In a duplicate-free alphabet, looking up the symbol at position `o` gives
/// back `o`.
pub proof fn lemma_lookup_of_element(a: Seq<char>, o: int)
    requires
        distinct(a),
        0 <= o < a.len(),
    ensures
        lookup_index(a, a[o]) == o,
    decreases a.len(),
{
    if o < a.len() - 1 {
        assert(a.last() != a[o]);
        lemma_lookup_of_element(a.drop_last(), o);
    }
}

/// Finds the index of the last occurrence of `c` in the alphabet by a linear
/// scan where a later match wins.
pub fn find_last_index(alphabet: &Vec<char>, c: char) -> (r: Option<usize>)
    ensures
        match r {
            Some(i) => i < alphabet@.len() && lookup_index(alphabet@, c) == i as int,
            None => lookup_index(alphabet@, c) == -1,
        },
{
    let mut found: Option<usize> = None;
    let mut i: usize = 0;
    while i < alphabet.len()
        invariant
            i <= alphabet@.len(),
            match found {
                Some(k) => k < i && lookup_index(alphabet@.take(i as int), c) == k as int,
                None => lookup_index(alphabet@.take(i as int), c) == -1,
            },
        decreases alphabet@.len() - i,
    {
        if alphabet[i] == c {
            found = Some(i);
        }
        proof {
            assert(alphabet@.take(i + 1).drop_last() =~= alphabet@.take(i as int));
            assert(alphabet@.take(i + 1).last() == alphabet@[i as int]);
        }
        i += 1;
    }
    proof {
        assert(alphabet@.take(alphabet@.len() as int) =~= alphabet@);
    }
    found
}

/// Index of the first comma in `s`, or -1 when there is none.
pub open spec fn find_comma(s: Seq<char>) -> int
    decreases s.len(),
{
    if s.len() == 0 {
        -1
    } else if s[0] == ',' {
        0
    } else {
        let r = find_comma(s.drop_first());
        if r < 0 {
            -1
        } else {
            r + 1
        }
    }
}

/// The first comma, if any, lies inside the sequence.
pub proof fn lemma_find_comma_bounds(s: Seq<char>)
    ensures
        -1 <= find_comma(s) < s.len(),
        find_comma(s) >= 0 ==> s[find_comma(s)] == ',',
    decreases s.len(),
{
    if s.len() != 0 && s[0] != ',' {
        lemma_find_comma_bounds(s.drop_first());
    }
}

/// Scanning justifies the lookup: if nothing before `j` is a comma, and `j`
/// is one or the end, `find_comma` is `j` or -1 accordingly.
proof fn lemma_find_comma_scan(s: Seq<char>, j: int)
    requires
        0 <= j <= s.len(),
        forall|m: int| 0 <= m < j ==> s[m] != ',',
        j < s.len() ==> s[j] == ',',
    ensures
        find_comma(s) == if j == s.len() {
            -1int
        } else {
            j
        },
    decreases j,
{
    if j == 0 {
    } else {
        assert(forall|m: int| 0 <= m < j - 1 ==> s.drop_first()[m] == s[m + 1]);
        lemma_find_comma_scan(s.drop_first(), j - 1);
    }
}

/// The alphabet a comma-separated line denotes: one symbol per chunk — the
/// chunk's first character, or a comma itself for an empty chunk.
pub open spec fn parse_alphabet_spec(s: Seq<char>) -> Seq<char>
    decreases s.len(),
    via parse_alphabet_spec_decreases
{
    let k = find_comma(s);
    if k < 0 {
        seq![
            if s.len() == 0 {
                ','
            } else {
                s[0]
            },
        ]
    } else if k == 0 {
        seq![','] + parse_alphabet_spec(s.skip(1))
    } else {
        seq![s[0]] + parse_alphabet_spec(s.skip(k + 1))
    }
}

#[via_fn]
proof fn parse_alphabet_spec_decreases(s: Seq<char>) {
    lemma_find_comma_bounds(s);
}

/// Reads an alphabet from one comma-separated line: each comma-bounded chunk
/// contributes its first character, and an empty chunk stands for the comma
/// itself.
pub fn parse_alphabet(line: &Vec<char>) -> (r: Vec<char>)
    ensures
        r@ == parse_alphabet_spec(line@),
{
    let mut out: Vec<char> = Vec::new();
    let mut start: usize = 0;
    proof {
        assert(line@.skip(0) =~= line@);
        assert(out@ + parse_alphabet_spec(line@) =~= parse_alphabet_spec(line@));
    }
    loop
        invariant
            start <= line@.len(),
            out@ + parse_alphabet_spec(line@.skip(start as int)) == parse_alphabet_spec(line@),
        ensures
            out@ == parse_alphabet_spec(line@),
        decreases line@.len() - start,
    {
        let ghost piece = line@.skip(start as int);
        let ghost out0 = out@;
        let mut comma: usize = start;
        while comma < line.len() && line[comma] != ','
            invariant
                start <= comma <= line@.len(),
                forall|m: int| start <= m < comma ==> line@[m] != ',',
            decreases line@.len() - comma,
        {
            comma += 1;
        }
        proof {
            assert(forall|m: int| 0 <= m < comma - start ==> piece[m] == line@[m + start]);
            lemma_find_comma_scan(piece, comma - start);
        }
        if comma == line.len() {
            let head = if start == line.len() {
                ','
            } else {
                line[start]
            };
            out.push(head);
            proof {
                assert(parse_alphabet_spec(piece) =~= seq![head]);
                assert(out@ =~= out0 + seq![head]);
            }
            return out;
        } else {
            let head = if comma == start {
                ','
            } else {
                line[start]
            };
            out.push(head);
            proof {
                let tail = parse_alphabet_spec(line@.skip(comma as int + 1));
                assert(piece.skip(comma - start + 1) =~= line@.skip(comma as int + 1));
                assert(parse_alphabet_spec(piece) == seq![head] + tail);
                assert(out@ =~= out0.push(head));
                assert(out0.push(head) + tail =~= out0 + (seq![head] + tail));
            }
            start = comma + 1;
        }
    }
}

} // verus!
