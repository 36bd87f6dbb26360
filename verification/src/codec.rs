//! The codec: encoding maps every input symbol to its code and
//! concatenates the codes in input order; decoding consumes the bit string
//! greedily, emitting a symbol whenever the accumulated bits match a code.

use vstd::prelude::*;
use crate::codes::CodeTable;
use crate::codes::code_of;
use crate::codes::has_duplicate_codes;
use crate::codes::symbol_of;
use crate::errors::HuffmanError;
use crate::frequency::count_in;

verus! {

/// The code of `c`, or the empty string where `c` has no entry.
pub open spec fn code_str(entries: Seq<(char, Seq<char>)>, c: char) -> Seq<char> {
    match code_of(entries, c) {
        Some(s) => s,
        None => Seq::empty(),
    }
}

/// Every symbol of `text` has a code.
pub open spec fn covers(entries: Seq<(char, Seq<char>)>, text: Seq<char>) -> bool {
    forall|i: int| 0 <= i < text.len() ==> code_of(entries, #[trigger] text[i]) is Some
}

/// The concatenation, in input order, of the codes of the symbols of
/// `text`.
pub open spec fn encoded_bits(text: Seq<char>, entries: Seq<(char, Seq<char>)>) -> Seq<char>
    decreases text.len(),
{
    if text.len() == 0 {
        Seq::empty()
    } else {
        code_str(entries, text[0]) + encoded_bits(text.drop_first(), entries)
    }
}

/// Extending the text appends that symbol's code to the encoding.
proof fn lemma_encoded_push(text: Seq<char>, entries: Seq<(char, Seq<char>)>, c: char)
    ensures
        encoded_bits(text.push(c), entries) == encoded_bits(text, entries) + code_str(entries, c),
    decreases text.len(),
{
    let t = text.push(c);
    if text.len() == 0 {
        assert(t.drop_first() =~= Seq::<char>::empty());
        assert(t[0] == c);
        assert(encoded_bits(Seq::<char>::empty(), entries) == Seq::<char>::empty());
        assert(encoded_bits(t, entries) == code_str(entries, c) + encoded_bits(
            t.drop_first(),
            entries,
        ));
        assert(code_str(entries, c) + Seq::<char>::empty() =~= code_str(entries, c));
        assert(encoded_bits(text, entries) + code_str(entries, c) =~= code_str(entries, c));
    } else {
        assert(t.drop_first() =~= text.drop_first().push(c));
        assert(t[0] == text[0]);
        lemma_encoded_push(text.drop_first(), entries, c);
        assert(code_str(entries, text[0]) + (encoded_bits(text.drop_first(), entries) + code_str(
            entries,
            c,
        )) =~= (code_str(entries, text[0]) + encoded_bits(text.drop_first(), entries)) + code_str(
            entries,
            c,
        ));
    }
}

/// Encodes `text` against the table: the codes of the symbols of `text`,
/// concatenated in input order, together with the exact bit count. Fails
/// exactly when some symbol of `text` has no entry in the table.
pub fn encode_text(text: &str, encoding_table: &CodeTable) -> (r: Result<
    (String, usize),
    HuffmanError,
>)
    ensures
        r is Err <==> !covers(encoding_table@, text@),
        r is Err ==> r == Err::<(String, usize), HuffmanError>(HuffmanError::MissingCode),
        r matches Ok((s, len)) ==> {
            &&& s@ == encoded_bits(text@, encoding_table@)
            &&& len == s@.len()
        },
{
    let n = text.unicode_len();
    let mut encoded = String::new();
    let mut i: usize = 0;
    proof {
        assert(text@.take(0) =~= Seq::<char>::empty());
        assert(encoded@ =~= encoded_bits(text@.take(0), encoding_table@));
    }
    while i < n
        invariant
            n == text@.len(),
            i <= n,
            encoded@ == encoded_bits(text@.take(i as int), encoding_table@),
            covers(encoding_table@, text@.take(i as int)),
        decreases n - i,
    {
        let c = text.get_char(i);
        match encoding_table.code_for(c) {
            Some(code) => {
                encoded.append(code.as_str());
                proof {
                    assert(text@.take(i + 1) =~= text@.take(i as int).push(c));
                    lemma_encoded_push(text@.take(i as int), encoding_table@, c);
                    assert(forall|k: int|
                        0 <= k < i + 1 ==> code_of(
                            encoding_table@,
                            #[trigger] text@.take(i + 1)[k],
                        ) is Some);
                }
            },
            None => {
                return Err(HuffmanError::MissingCode);
            },
        }
        i += 1;
    }
    proof {
        assert(text@.take(n as int) =~= text@);
    }
    let length = encoded.as_str().unicode_len();
    Ok((encoded, length))
}

/// Greedy decoding: starting from the partial code `cur`, consume `bits`
/// one by one; whenever the accumulated bits match a code exactly, emit
/// that entry's symbol and start over. `None` when the bits run out in the
/// middle of a code.
pub open spec fn greedy_decode(
    entries: Seq<(char, Seq<char>)>,
    cur: Seq<char>,
    bits: Seq<char>,
) -> Option<Seq<char>>
    decreases bits.len(),
{
    if bits.len() == 0 {
        if cur.len() == 0 {
            Some(Seq::empty())
        } else {
            None
        }
    } else {
        let cur2 = cur.push(bits[0]);
        match symbol_of(entries, cur2) {
            Some(c) => match greedy_decode(entries, Seq::empty(), bits.drop_first()) {
                Some(rest) => Some(seq![c] + rest),
                None => None,
            },
            None => greedy_decode(entries, cur2, bits.drop_first()),
        }
    }
}

/// `o` with `out` prepended to a successful result.
pub open spec fn prepend_decoded(out: Seq<char>, o: Option<Seq<char>>) -> Option<Seq<char>> {
    match o {
        Some(t) => Some(out + t),
        None => None,
    }
}

/// Relies on std's String::push: appends exactly one character.
#[verifier::external_body]
fn push_char(s: &mut String, c: char)
    ensures
        final(s)@ == old(s)@.push(c),
{
    s.push(c);
}

/// Decodes `bit_str` against the table by greedy matching. Fails with
/// `AmbiguousCode` exactly when two entries share one code; otherwise
/// fails with `IncompleteCode` exactly when the bits end in the middle of
/// a code, and otherwise returns the greedy decoding.
pub fn decode_text(encoding_table: &CodeTable, bit_str: &str) -> (r: Result<String, HuffmanError>)
    ensures
        r is Err <==> (has_duplicate_codes(encoding_table@) || greedy_decode(
            encoding_table@,
            Seq::empty(),
            bit_str@,
        ) is None),
        r == Err::<String, HuffmanError>(HuffmanError::AmbiguousCode) <==> has_duplicate_codes(
            encoding_table@,
        ),
        r is Err ==> (r == Err::<String, HuffmanError>(HuffmanError::AmbiguousCode) || r == Err::<
            String,
            HuffmanError,
        >(HuffmanError::IncompleteCode)),
        r matches Ok(s) ==> greedy_decode(encoding_table@, Seq::empty(), bit_str@) == Some(s@),
{
    if encoding_table.has_ambiguity() {
        return Err(HuffmanError::AmbiguousCode);
    }
    let n = bit_str.unicode_len();
    let mut decoded = String::new();
    let mut current_code = String::new();
    let mut i: usize = 0;
    proof {
        assert(bit_str@.skip(0) =~= bit_str@);
        assert(Seq::<char>::empty() + bit_str@ =~= bit_str@);
    }
    while i < n
        invariant
            n == bit_str@.len(),
            i <= n,
            prepend_decoded(
                decoded@,
                greedy_decode(encoding_table@, current_code@, bit_str@.skip(i as int)),
            ) == greedy_decode(encoding_table@, Seq::empty(), bit_str@),
        decreases n - i,
    {
        let ghost pre_out = decoded@;
        let ghost pre_cur = current_code@;
        let ghost rem = bit_str@.skip(i as int);
        let b = bit_str.get_char(i);
        push_char(&mut current_code, b);
        proof {
            assert(rem[0] == bit_str@[i as int]);
            assert(current_code@ == pre_cur.push(rem[0]));
            assert(rem.drop_first() =~= bit_str@.skip(i + 1));
        }
        match encoding_table.symbol_for(&current_code) {
            Some(character) => {
                push_char(&mut decoded, character);
                current_code = String::new();
                proof {
                    let entries = encoding_table@;
                    let g = greedy_decode(entries, Seq::<char>::empty(), bit_str@.skip(i + 1));
                    assert(decoded@ == pre_out.push(character));
                    assert(current_code@ =~= Seq::<char>::empty());
                    if let Some(rest) = g {
                        assert(pre_out + (seq![character] + rest) =~= pre_out.push(character)
                            + rest);
                    }
                    assert(prepend_decoded(decoded@, greedy_decode(entries, current_code@, bit_str@.skip(i + 1)))
                        == prepend_decoded(pre_out, greedy_decode(entries, pre_cur, rem)));
                }
            },
            None => {
                proof {
                    assert(prepend_decoded(
                        decoded@,
                        greedy_decode(encoding_table@, current_code@, bit_str@.skip(i + 1)),
                    ) == greedy_decode(encoding_table@, Seq::empty(), bit_str@));
                }
            },
        }
        i += 1;
    }
    proof {
        assert(bit_str@.skip(n as int) =~= Seq::<char>::empty());
    }
    if current_code.as_str().is_empty() {
        proof {
            assert(decoded@ + Seq::<char>::empty() =~= decoded@);
        }
        Ok(decoded)
    } else {
        Err(HuffmanError::IncompleteCode)
    }
}

/// No code is a prefix of (or equal to) another entry's code.
pub open spec fn prefix_free(entries: Seq<(char, Seq<char>)>) -> bool {
    forall|i: int, j: int|
        0 <= i < entries.len() && 0 <= j < entries.len() && i != j ==> !(
        #[trigger] entries[i]).1.is_prefix_of((#[trigger] entries[j]).1)
}

/// No two entries carry one symbol.
pub open spec fn distinct_symbols(entries: Seq<(char, Seq<char>)>) -> bool {
    forall|i: int, j: int|
        0 <= i < j < entries.len() ==> (#[trigger] entries[i]).0 != (#[trigger] entries[j]).0
}

/// Every code has at least one bit.
pub open spec fn codes_nonempty(entries: Seq<(char, Seq<char>)>) -> bool {
    forall|i: int| 0 <= i < entries.len() ==> (#[trigger] entries[i]).1.len() >= 1
}

/// A successful symbol lookup returns the first entry carrying the symbol.
proof fn lemma_code_of_witness(entries: Seq<(char, Seq<char>)>, c: char, code: Seq<char>)
    requires
        code_of(entries, c) == Some(code),
    ensures
        exists|k: int| 0 <= k < entries.len() && #[trigger] entries[k] == (c, code),
    decreases entries.len(),
{
    if entries[0].0 == c {
        assert(entries[0] == (c, code));
    } else {
        lemma_code_of_witness(entries.drop_first(), c, code);
        let k = choose|k: int|
            0 <= k < entries.drop_first().len() && #[trigger] entries.drop_first()[k] == (c, code);
        assert(entries[k + 1] == (c, code));
    }
}

/// A successful code lookup returns an entry that carries the code.
proof fn lemma_symbol_of_witness(entries: Seq<(char, Seq<char>)>, code: Seq<char>, c: char)
    requires
        symbol_of(entries, code) == Some(c),
    ensures
        exists|k: int| 0 <= k < entries.len() && #[trigger] entries[k] == (c, code),
    decreases entries.len(),
{
    if entries[0].1 == code {
        assert(entries[0] == (c, code));
    } else {
        lemma_symbol_of_witness(entries.drop_first(), code, c);
        let k = choose|k: int|
            0 <= k < entries.drop_first().len() && #[trigger] entries.drop_first()[k] == (c, code);
        assert(entries[k + 1] == (c, code));
    }
}

/// A code that stands in the table is found by the code lookup.
proof fn lemma_symbol_of_some(entries: Seq<(char, Seq<char>)>, k: int)
    requires
        0 <= k < entries.len(),
    ensures
        symbol_of(entries, entries[k].1) is Some,
    decreases entries.len(),
{
    if entries[0].1 == entries[k].1 {
    } else {
        assert(k != 0);
        assert(entries.drop_first()[k - 1] == entries[k]);
        lemma_symbol_of_some(entries.drop_first(), k - 1);
    }
}

/// A symbol that stands in the table is found by the symbol lookup.
pub proof fn lemma_code_of_some(entries: Seq<(char, Seq<char>)>, k: int)
    requires
        0 <= k < entries.len(),
    ensures
        code_of(entries, entries[k].0) is Some,
    decreases entries.len(),
{
    if entries[0].0 == entries[k].0 {
    } else {
        assert(k != 0);
        assert(entries.drop_first()[k - 1] == entries[k]);
        lemma_code_of_some(entries.drop_first(), k - 1);
    }
}

/// In a prefix-free table, a proper prefix of some entry's code matches
/// no entry.
proof fn lemma_proper_prefix_no_symbol(entries: Seq<(char, Seq<char>)>, j: int, p: Seq<char>)
    requires
        prefix_free(entries),
        0 <= j < entries.len(),
        p.len() < entries[j].1.len(),
        p.is_prefix_of(entries[j].1),
    ensures
        symbol_of(entries, p) is None,
{
    if symbol_of(entries, p) is Some {
        let c = symbol_of(entries, p)->Some_0;
        lemma_symbol_of_witness(entries, p, c);
        let k = choose|k: int| 0 <= k < entries.len() && #[trigger] entries[k] == (c, p);
        assert(k != j);
        assert(entries[k].1.is_prefix_of(entries[j].1));
        assert(false);
    }
}

/// In a prefix-free table with distinct symbols, looking a symbol's code
/// back up returns that symbol.
proof fn lemma_symbol_of_code(entries: Seq<(char, Seq<char>)>, c: char, code: Seq<char>)
    requires
        prefix_free(entries),
        distinct_symbols(entries),
        code_of(entries, c) == Some(code),
    ensures
        symbol_of(entries, code) == Some(c),
{
    lemma_code_of_witness(entries, c, code);
    let k = choose|k: int| 0 <= k < entries.len() && #[trigger] entries[k] == (c, code);
    lemma_symbol_of_some(entries, k);
    let c2 = symbol_of(entries, code)->Some_0;
    lemma_symbol_of_witness(entries, code, c2);
    let m = choose|m: int| 0 <= m < entries.len() && #[trigger] entries[m] == (c2, code);
    if m != k {
        assert(entries[m].1.is_prefix_of(entries[k].1));
        assert(false);
    }
}

/// Greedy decoding of a code's bits, begun `j` bits in, consumes exactly
/// the rest of the code, emits its symbol, and goes on with the tail.
proof fn lemma_greedy_consume(
    entries: Seq<(char, Seq<char>)>,
    c: char,
    code: Seq<char>,
    j: int,
    tail: Seq<char>,
)
    requires
        prefix_free(entries),
        distinct_symbols(entries),
        code_of(entries, c) == Some(code),
        0 <= j < code.len(),
    ensures
        greedy_decode(entries, code.take(j), code.skip(j) + tail) == prepend_decoded(
            seq![c],
            greedy_decode(entries, Seq::empty(), tail),
        ),
    decreases code.len() - j,
{
    let bits = code.skip(j) + tail;
    assert(bits.len() > 0);
    assert(bits[0] == code[j]);
    let cur2 = code.take(j).push(code[j]);
    assert(cur2 =~= code.take(j + 1));
    assert(bits.drop_first() =~= code.skip(j + 1) + tail);
    if j + 1 < code.len() {
        lemma_code_of_witness(entries, c, code);
        let k = choose|k: int| 0 <= k < entries.len() && #[trigger] entries[k] == (c, code);
        assert(code.take(j + 1).is_prefix_of(code)) by {
            assert(code.take(code.take(j + 1).len() as int) =~= code.take(j + 1));
        }
        lemma_proper_prefix_no_symbol(entries, k, code.take(j + 1));
        lemma_greedy_consume(entries, c, code, j + 1, tail);
    } else {
        assert(cur2 =~= code);
        lemma_symbol_of_code(entries, c, code);
        assert(code.skip(j + 1) + tail =~= tail);
        if let Some(rest) = greedy_decode(entries, Seq::empty(), tail) {
            assert(seq![c] + rest == prepend_decoded(
                seq![c],
                greedy_decode(entries, Seq::empty(), tail),
            )->Some_0);
        }
    }
}

/// Round trip: greedy decoding inverts encoding, for every text whose
/// symbols all have codes, over any prefix-free table with distinct
/// symbols and non-empty codes.
pub proof fn lemma_decode_encode(entries: Seq<(char, Seq<char>)>, text: Seq<char>)
    requires
        prefix_free(entries),
        distinct_symbols(entries),
        codes_nonempty(entries),
        covers(entries, text),
    ensures
        greedy_decode(entries, Seq::empty(), encoded_bits(text, entries)) == Some(text),
    decreases text.len(),
{
    if text.len() == 0 {
    } else {
        let c = text[0];
        let code = code_str(entries, c);
        assert(code_of(entries, c) == Some(code));
        lemma_code_of_witness(entries, c, code);
        assert(code.len() >= 1);
        let tail = encoded_bits(text.drop_first(), entries);
        assert(covers(entries, text.drop_first())) by {
            assert(forall|i: int|
                0 <= i < text.drop_first().len() ==> #[trigger] text.drop_first()[i] == text[i
                    + 1]);
        }
        lemma_decode_encode(entries, text.drop_first());
        assert(code.take(0) =~= Seq::<char>::empty());
        assert(code.skip(0) + tail =~= encoded_bits(text, entries));
        lemma_greedy_consume(entries, c, code, 0, tail);
        assert(seq![c] + text.drop_first() =~= text);
    }
}

/// With distinct symbols, the code found for a code string's symbol is
/// that code string.
proof fn lemma_code_of_from_symbol(entries: Seq<(char, Seq<char>)>, code: Seq<char>, c: char)
    requires
        distinct_symbols(entries),
        symbol_of(entries, code) == Some(c),
    ensures
        code_of(entries, c) == Some(code),
{
    lemma_symbol_of_witness(entries, code, c);
    let k = choose|k: int| 0 <= k < entries.len() && #[trigger] entries[k] == (c, code);
    lemma_code_of_some(entries, k);
    let found = code_of(entries, c)->Some_0;
    lemma_code_of_witness(entries, c, found);
    let m = choose|m: int| 0 <= m < entries.len() && #[trigger] entries[m] == (c, found);
    assert(m == k);
}

/// Greedy decoding is injective: whatever it decodes is the one bit
/// string that encodes the result (with the pending partial code in
/// front). So a change to any meaningful bit can never decode back to the
/// unchanged text: corruption is either detected or visible in the
/// output.
pub proof fn lemma_greedy_injective(
    entries: Seq<(char, Seq<char>)>,
    cur: Seq<char>,
    bits: Seq<char>,
    txt: Seq<char>,
)
    requires
        distinct_symbols(entries),
        greedy_decode(entries, cur, bits) == Some(txt),
    ensures
        cur + bits == encoded_bits(txt, entries),
    decreases bits.len(),
{
    if bits.len() == 0 {
        assert(cur.len() == 0 && txt =~= Seq::<char>::empty());
        assert(cur + bits =~= Seq::<char>::empty());
        assert(encoded_bits(txt, entries) == Seq::<char>::empty());
    } else {
        let cur2 = cur.push(bits[0]);
        assert(cur + bits =~= cur2 + bits.drop_first());
        match symbol_of(entries, cur2) {
            Some(c) => {
                let g = greedy_decode(entries, Seq::<char>::empty(), bits.drop_first());
                let rest = g->Some_0;
                assert(txt == seq![c] + rest);
                lemma_greedy_injective(entries, Seq::<char>::empty(), bits.drop_first(), rest);
                assert(bits.drop_first() =~= Seq::<char>::empty() + bits.drop_first());
                lemma_code_of_from_symbol(entries, cur2, c);
                assert(txt[0] == c);
                assert(txt.drop_first() =~= rest);
                assert(encoded_bits(txt, entries) == code_str(entries, c) + encoded_bits(
                    txt.drop_first(),
                    entries,
                ));
                assert(code_str(entries, c) == cur2);
            },
            None => {
                lemma_greedy_injective(entries, cur2, bits.drop_first(), txt);
            },
        }
    }
}

/// Corruption detection over the meaningful bits: a bit string that is
/// not the encoding of `txt` never greedily decodes to `txt`.
pub proof fn lemma_decode_detects_change(
    entries: Seq<(char, Seq<char>)>,
    bits: Seq<char>,
    txt: Seq<char>,
)
    requires
        distinct_symbols(entries),
        bits != encoded_bits(txt, entries),
    ensures
        greedy_decode(entries, Seq::empty(), bits) != Some(txt),
{
    if greedy_decode(entries, Seq::empty(), bits) == Some(txt) {
        lemma_greedy_injective(entries, Seq::empty(), bits, txt);
        assert(Seq::<char>::empty() + bits =~= bits);
    }
}

/// An encoding over all-binary codes is a '0'/'1' string.
pub proof fn lemma_encoded_binary(entries: Seq<(char, Seq<char>)>, text: Seq<char>)
    requires
        forall|k: int|
            0 <= k < entries.len() ==> crate::bits::is_bit_string((#[trigger] entries[k]).1),
    ensures
        crate::bits::is_bit_string(encoded_bits(text, entries)),
    decreases text.len(),
{
    if text.len() == 0 {
    } else {
        lemma_encoded_binary(entries, text.drop_first());
        let code = code_str(entries, text[0]);
        assert(crate::bits::is_bit_string(code)) by {
            if code_of(entries, text[0]) is Some {
                lemma_code_of_witness(entries, text[0], code);
            } else {
                assert(code =~= Seq::<char>::empty());
            }
        }
        let rest = encoded_bits(text.drop_first(), entries);
        assert forall|i: int|
            0 <= i < encoded_bits(text, entries).len() implies (#[trigger] encoded_bits(
            text,
            entries,
        )[i]) == '0' || encoded_bits(text, entries)[i] == '1' by {
            assert(encoded_bits(text, entries) == code + rest);
            if i < code.len() {
                assert(code[i] == '0' || code[i] == '1');
            } else {
                assert(rest[i - code.len()] == '0' || rest[i - code.len()] == '1');
            }
        }
    }
}

/// With every code at most `m` bits, an encoding of `text` takes at most
/// `m` bits per symbol.
pub proof fn lemma_encoded_length_bound(entries: Seq<(char, Seq<char>)>, text: Seq<char>, m: int)
    requires
        m >= 0,
        forall|k: int| 0 <= k < entries.len() ==> (#[trigger] entries[k]).1.len() <= m,
    ensures
        encoded_bits(text, entries).len() <= text.len() * m,
    decreases text.len(),
{
    if text.len() == 0 {
    } else {
        lemma_encoded_length_bound(entries, text.drop_first(), m);
        let code = code_str(entries, text[0]);
        assert(code.len() <= m) by {
            if code_of(entries, text[0]) is Some {
                lemma_code_of_witness(entries, text[0], code);
            } else {
                assert(code =~= Seq::<char>::empty());
            }
        }
        assert(encoded_bits(text, entries).len() == code.len() + encoded_bits(
            text.drop_first(),
            entries,
        ).len());
        assert(m + (text.len() - 1) * m == text.len() * m) by (nonlinear_arith);
    }
}

/// The sum, over the table's entries, of the symbol's count in `text`
/// times the length of its code.
pub open spec fn weighted_length(entries: Seq<(char, Seq<char>)>, text: Seq<char>) -> int
    decreases entries.len(),
{
    if entries.len() == 0 {
        0
    } else {
        count_in(text, entries[0].0) * entries[0].1.len() + weighted_length(
            entries.drop_first(),
            text,
        )
    }
}

/// Dropping the first symbol lowers its count by one and no other.
proof fn lemma_count_in_drop_first(s: Seq<char>, c: char)
    requires
        s.len() > 0,
    ensures
        count_in(s, c) == count_in(s.drop_first(), c) + if s[0] == c {
            1int
        } else {
            0int
        },
    decreases s.len(),
{
    if s.len() == 1 {
        assert(s.drop_last() =~= Seq::<char>::empty());
        assert(s.drop_first() =~= Seq::<char>::empty());
        assert(s.last() == s[0]);
    } else {
        lemma_count_in_drop_first(s.drop_last(), c);
        assert(s.drop_last().drop_first() =~= s.drop_first().drop_last());
        assert(s.drop_last()[0] == s[0]);
        assert(s.drop_first().last() == s.last());
    }
}

/// A symbol that stands at no position has no code.
proof fn lemma_code_of_absent(entries: Seq<(char, Seq<char>)>, c: char)
    requires
        forall|k: int| 0 <= k < entries.len() ==> (#[trigger] entries[k]).0 != c,
    ensures
        code_of(entries, c) is None,
    decreases entries.len(),
{
    if entries.len() > 0 {
        lemma_code_of_absent(entries.drop_first(), c);
    }
}

/// On a text with no symbols every weighted count is zero.
proof fn lemma_weighted_length_empty(entries: Seq<(char, Seq<char>)>)
    ensures
        weighted_length(entries, Seq::empty()) == 0,
    decreases entries.len(),
{
    if entries.len() > 0 {
        lemma_weighted_length_empty(entries.drop_first());
        assert(count_in(Seq::<char>::empty(), entries[0].0) == 0);
        assert(count_in(Seq::<char>::empty(), entries[0].0) * entries[0].1.len() == 0)
            by (nonlinear_arith)
            requires
                count_in(Seq::<char>::empty(), entries[0].0) == 0,
        ;
    }
}

/// Dropping the text's first symbol lowers the weighted sum by exactly
/// that symbol's code length.
proof fn lemma_weighted_length_drop(entries: Seq<(char, Seq<char>)>, text: Seq<char>)
    requires
        distinct_symbols(entries),
        text.len() > 0,
    ensures
        weighted_length(entries, text) == weighted_length(entries, text.drop_first()) + match
            code_of(entries, text[0]) {
            Some(code) => code.len() as int,
            None => 0int,
        },
    decreases entries.len(),
{
    if entries.len() == 0 {
    } else {
        let rest = entries.drop_first();
        assert(distinct_symbols(rest)) by {
            assert(forall|i: int| 0 <= i < rest.len() ==> rest[i] == entries[i + 1]);
        }
        lemma_weighted_length_drop(rest, text);
        lemma_count_in_drop_first(text, entries[0].0);
        if text[0] == entries[0].0 {
            assert(forall|k: int| 0 <= k < rest.len() ==> (#[trigger] rest[k]).0 != text[0]) by {
                assert(forall|k: int| 0 <= k < rest.len() ==> rest[k] == entries[k + 1]);
            }
            lemma_code_of_absent(rest, text[0]);
            assert(count_in(text, entries[0].0) * entries[0].1.len() == count_in(
                text.drop_first(),
                entries[0].0,
            ) * entries[0].1.len() + entries[0].1.len()) by (nonlinear_arith)
                requires
                    count_in(text, entries[0].0) == count_in(text.drop_first(), entries[0].0) + 1,
            ;
        } else {
            assert(count_in(text, entries[0].0) == count_in(text.drop_first(), entries[0].0));
        }
    }
}

/// Total encoded bit length: the encoding of `text` is exactly
/// `sum(count_in(text, sym) * len(code(sym)))` over the table's entries,
/// for every text whose symbols all have codes.
pub proof fn lemma_encoded_length(entries: Seq<(char, Seq<char>)>, text: Seq<char>)
    requires
        distinct_symbols(entries),
        covers(entries, text),
    ensures
        encoded_bits(text, entries).len() == weighted_length(entries, text),
    decreases text.len(),
{
    if text.len() == 0 {
        assert(text =~= Seq::<char>::empty());
        lemma_weighted_length_empty(entries);
        assert(encoded_bits(text, entries) == Seq::<char>::empty());
    } else {
        assert(covers(entries, text.drop_first())) by {
            assert(forall|i: int|
                0 <= i < text.drop_first().len() ==> #[trigger] text.drop_first()[i] == text[i
                    + 1]);
        }
        lemma_encoded_length(entries, text.drop_first());
        lemma_weighted_length_drop(entries, text);
        assert(encoded_bits(text, entries) == code_str(entries, text[0]) + encoded_bits(
            text.drop_first(),
            entries,
        ));
        assert(encoded_bits(text, entries).len() == code_str(entries, text[0]).len()
            + encoded_bits(text.drop_first(), entries).len());
        assert(code_of(entries, text[0]) is Some);
    }
}

} // verus!
