//! The scramble codec: move notation, scramble derivation from a hash,
//! and the single-pass canonicalizing reduction of a move sequence.

use sha2::Digest;
use vstd::prelude::*;

use crate::cube::{
    count_of, face_of, move_corners, move_edges, move_from, solved_pieces, spec_inverse,
    valid_move, valid_moves, Cube, Move, Piece,
};

verus! {

/// The face letter of a move.
pub open spec fn face_char(m: Move) -> char {
    match m {
        Move::U(_) => 'U',
        Move::D(_) => 'D',
        Move::L(_) => 'L',
        Move::R(_) => 'R',
        Move::F(_) => 'F',
        Move::B(_) => 'B',
    }
}

/// The text of one move: the face letter, then nothing for a quarter
/// turn, `2` for a half turn, or `'` for a reverse quarter turn.
pub open spec fn move_chars(m: Move) -> Seq<char> {
    if count_of(m) == 2 {
        seq![face_char(m), '2']
    } else if count_of(m) == 3 {
        seq![face_char(m), '\'']
    } else {
        seq![face_char(m)]
    }
}

/// The text of a move sequence: the moves' texts, space-separated.
pub open spec fn spec_format_moves(ms: Seq<Move>) -> Seq<char>
    decreases ms.len(),
{
    if ms.len() == 0 {
        Seq::empty()
    } else if ms.len() == 1 {
        move_chars(ms[0])
    } else {
        spec_format_moves(ms.drop_last()) + seq![' '] + move_chars(ms.last())
    }
}

pub open spec fn is_face_char(c: char) -> bool {
    c == 'U' || c == 'D' || c == 'L' || c == 'R' || c == 'F' || c == 'B'
}

/// The move denoted by a face letter and a count.
pub open spec fn move_of_char(c: char, n: u8) -> Move {
    if c == 'U' {
        Move::U(n)
    } else if c == 'D' {
        Move::D(n)
    } else if c == 'L' {
        Move::L(n)
    } else if c == 'R' {
        Move::R(n)
    } else if c == 'F' {
        Move::F(n)
    } else {
        Move::B(n)
    }
}

/// Lenient parse of move text: a face letter optionally followed by `2`
/// or `'`; every other character is skipped.
pub open spec fn parse_chars(cs: Seq<char>) -> Seq<Move>
    decreases cs.len(),
{
    if cs.len() == 0 {
        Seq::empty()
    } else if is_face_char(cs[0]) {
        if cs.len() >= 2 && cs[1] == '2' {
            seq![move_of_char(cs[0], 2)] + parse_chars(cs.skip(2))
        } else if cs.len() >= 2 && cs[1] == '\'' {
            seq![move_of_char(cs[0], 3)] + parse_chars(cs.skip(2))
        } else {
            seq![move_of_char(cs[0], 1)] + parse_chars(cs.skip(1))
        }
    } else {
        parse_chars(cs.skip(1))
    }
}

/// The eighteen moves, in the fixed table order; hash characters `0`-`9`
/// and `A`-`H` select one each.
pub open spec fn scramble_table(i: int) -> Move {
    move_from(i / 3, (i % 3 + 1) as u8)
}

/// The table index of an admissible hash character, or -1.
pub open spec fn hash_char_index(c: char) -> int {
    if '0' <= c <= '9' {
        c as int - '0' as int
    } else if 'A' <= c <= 'H' {
        10 + (c as int - 'A' as int)
    } else {
        -1
    }
}

/// The scramble derived from hash text: one move per admissible
/// character, other characters skipped.
pub open spec fn spec_scramble_from_hash(cs: Seq<char>) -> Seq<Move>
    decreases cs.len(),
{
    if cs.len() == 0 {
        Seq::empty()
    } else if hash_char_index(cs[0]) >= 0 {
        seq![scramble_table(hash_char_index(cs[0]))] + spec_scramble_from_hash(cs.drop_first())
    } else {
        spec_scramble_from_hash(cs.drop_first())
    }
}

/// One step of the cleanup pass: an incoming move annihilates an inverse
/// on top of the stack, merges with a same-face top (a merged count of 0
/// drops the top), and is pushed otherwise.
pub open spec fn cleanup_push(acc: Seq<Move>, m: Move) -> Seq<Move> {
    if acc.len() > 0 && spec_inverse(acc.last()) == m {
        acc.drop_last()
    } else if acc.len() > 0 && face_of(acc.last()) == face_of(m) {
        let c = (count_of(acc.last()) + count_of(m)) % 4;
        if c == 0 {
            acc.drop_last()
        } else {
            acc.drop_last().push(move_from(face_of(m), c as u8))
        }
    } else {
        acc.push(m)
    }
}

pub open spec fn cleanup_fold(acc: Seq<Move>, ms: Seq<Move>) -> Seq<Move>
    decreases ms.len(),
{
    if ms.len() == 0 {
        acc
    } else {
        cleanup_fold(cleanup_push(acc, ms[0]), ms.drop_first())
    }
}

/// The single left-to-right cleanup pass over a move sequence.
pub open spec fn spec_cleanup(ms: Seq<Move>) -> Seq<Move> {
    cleanup_fold(Seq::empty(), ms)
}

impl Move {
    /// The notation of this move.
    pub fn notation(&self) -> (r: &'static str)
        ensures
            r@ == move_chars(*self),
    {
        let table = ["U", "U2", "U'", "D", "D2", "D'", "L", "L2", "L'", "R", "R2", "R'", "F", "F2",
            "F'", "B", "B2", "B'"];
        let n = self.count();
        let k: usize = if n == 2 {
            1
        } else if n == 3 {
            2
        } else {
            0
        };
        let r = table[(self.face() as usize) * 3 + k];
        proof {
            reveal_strlit("U");
            reveal_strlit("U2");
            reveal_strlit("U'");
            reveal_strlit("D");
            reveal_strlit("D2");
            reveal_strlit("D'");
            reveal_strlit("L");
            reveal_strlit("L2");
            reveal_strlit("L'");
            reveal_strlit("R");
            reveal_strlit("R2");
            reveal_strlit("R'");
            reveal_strlit("F");
            reveal_strlit("F2");
            reveal_strlit("F'");
            reveal_strlit("B");
            reveal_strlit("B2");
            reveal_strlit("B'");
            assert(r@ =~= move_chars(*self));
        }
        r
    }
}

/// Renders a move sequence as space-separated notation.
pub fn format_moves(moves: &[Move]) -> (r: String)
    ensures
        r@ == spec_format_moves(moves@),
{
    let mut formatted = String::new();
    let mut i: usize = 0;
    while i < moves.len()
        invariant
            i <= moves@.len(),
            formatted@ == spec_format_moves(moves@.take(i as int)),
        decreases moves@.len() - i,
    {
        if i > 0 {
            let sp = " ";
            proof {
                reveal_strlit(" ");
                assert(sp@ =~= seq![' ']);
            }
            formatted.append(sp);
        }
        formatted.append(moves[i].notation());
        proof {
            let t = moves@.take(i + 1 as int);
            assert(t.drop_last() =~= moves@.take(i as int));
            assert(t.last() == moves@[i as int]);
            if i == 0 {
                assert(formatted@ =~= spec_format_moves(t));
            }
        }
        i = i + 1;
    }
    proof {
        assert(moves@.take(moves@.len() as int) =~= moves@);
    }
    formatted
}

/// Parses move notation, skipping unrecognized characters.
pub fn parse_moves(s: &str) -> (r: Vec<Move>)
    ensures
        r@ == parse_chars(s@),
        valid_moves(r@),
{
    let len = s.unicode_len();
    let mut moves: Vec<Move> = Vec::new();
    let mut i: usize = 0;
    proof {
        assert(s@.skip(0) =~= s@);
        assert(Seq::<Move>::empty() + parse_chars(s@) =~= parse_chars(s@));
    }
    while i < len
        invariant
            i <= len,
            len == s@.len(),
            parse_chars(s@) == moves@ + parse_chars(s@.skip(i as int)),
            valid_moves(moves@),
        decreases len - i,
    {
        let ghost rest = s@.skip(i as int);
        let c = s.get_char(i);
        proof {
            assert(rest[0] == s@[i as int]);
        }
        let face_ok = c == 'U' || c == 'D' || c == 'L' || c == 'R' || c == 'F' || c == 'B';
        if face_ok {
            let mut count: u8 = 1;
            let mut step: usize = 1;
            if i + 1 < len {
                let c2 = s.get_char(i + 1);
                proof {
                    assert(rest[1] == s@[i + 1 as int]);
                }
                if c2 == '2' {
                    count = 2;
                    step = 2;
                } else if c2 == '\'' {
                    count = 3;
                    step = 2;
                }
            }
            let m = if c == 'U' {
                Move::U(count)
            } else if c == 'D' {
                Move::D(count)
            } else if c == 'L' {
                Move::L(count)
            } else if c == 'R' {
                Move::R(count)
            } else if c == 'F' {
                Move::F(count)
            } else {
                Move::B(count)
            };
            let ghost prev = moves@;
            moves.push(m);
            proof {
                assert(m == move_of_char(rest[0], count));
                assert(rest.skip(step as int) =~= s@.skip(i + step as int));
                assert(parse_chars(rest) == seq![m] + parse_chars(rest.skip(step as int)));
                assert(prev + (seq![m] + parse_chars(rest.skip(step as int))) =~= moves@
                    + parse_chars(rest.skip(step as int)));
            }
            i = i + step;
        } else {
            proof {
                assert(rest.skip(1) =~= s@.skip(i + 1 as int));
                assert(parse_chars(rest) == parse_chars(rest.skip(1)));
            }
            i = i + 1;
        }
    }
    proof {
        assert(s@.skip(len as int) =~= Seq::<char>::empty());
    }
    moves
}

/// The move at a scramble-table index.
fn table_move(idx: usize) -> (m: Move)
    requires
        idx < 18,
    ensures
        m == scramble_table(idx as int),
        valid_move(m),
{
    let f = idx / 3;
    let n = (idx % 3 + 1) as u8;
    if f == 0 {
        Move::U(n)
    } else if f == 1 {
        Move::D(n)
    } else if f == 2 {
        Move::L(n)
    } else if f == 3 {
        Move::R(n)
    } else if f == 4 {
        Move::F(n)
    } else {
        Move::B(n)
    }
}

/// Derives the scramble from hash text: characters `0`-`9` and `A`-`H`
/// pick moves from the fixed eighteen-entry table, in order
/// U1 U2 U3 D1 D2 D3 L1 L2 L3 R1 R2 R3 F1 F2 F3 B1 B2 B3; any other
/// character is skipped.
pub fn scramble_from_hash(hash: &str) -> (r: Vec<Move>)
    ensures
        r@ == spec_scramble_from_hash(hash@),
        valid_moves(r@),
{
    let len = hash.unicode_len();
    let mut moves: Vec<Move> = Vec::new();
    let mut i: usize = 0;
    proof {
        assert(hash@.skip(0) =~= hash@);
        assert(Seq::<Move>::empty() + spec_scramble_from_hash(hash@) =~= spec_scramble_from_hash(
            hash@,
        ));
    }
    while i < len
        invariant
            i <= len,
            len == hash@.len(),
            spec_scramble_from_hash(hash@) == moves@ + spec_scramble_from_hash(
                hash@.skip(i as int),
            ),
            valid_moves(moves@),
        decreases len - i,
    {
        let ghost rest = hash@.skip(i as int);
        let c = hash.get_char(i);
        proof {
            assert(rest[0] == hash@[i as int]);
            assert(rest.drop_first() =~= hash@.skip(i + 1));
        }
        let v = c as u32;
        if v >= 48 && v <= 57 {
            let idx = (v - 48) as usize;
            proof {
                assert(idx as int == hash_char_index(rest[0]));
            }
            let m = table_move(idx);
            let ghost prev = moves@;
            moves.push(m);
            proof {
                assert(prev + (seq![m] + spec_scramble_from_hash(rest.drop_first())) =~= moves@
                    + spec_scramble_from_hash(rest.drop_first()));
            }
        } else if v >= 65 && v <= 72 {
            let idx = (10 + (v - 65)) as usize;
            proof {
                assert(idx as int == hash_char_index(rest[0]));
            }
            let m = table_move(idx);
            let ghost prev = moves@;
            moves.push(m);
            proof {
                assert(prev + (seq![m] + spec_scramble_from_hash(rest.drop_first())) =~= moves@
                    + spec_scramble_from_hash(rest.drop_first()));
            }
        } else {
            proof {
                assert(hash_char_index(rest[0]) < 0);
            }
        }
        i = i + 1;
    }
    proof {
        assert(hash@.skip(len as int) =~= Seq::<char>::empty());
    }
    moves
}

proof fn lemma_cleanup_fold_snoc(acc: Seq<Move>, ms: Seq<Move>, m: Move)
    ensures
        cleanup_fold(acc, ms.push(m)) == cleanup_push(cleanup_fold(acc, ms), m),
    decreases ms.len(),
{
    if ms.len() == 0 {
        assert(ms.push(m)[0] == m);
        assert(ms.push(m).drop_first() =~= Seq::<Move>::empty());
        assert(cleanup_fold(acc, ms.push(m)) == cleanup_fold(
            cleanup_push(acc, m),
            Seq::<Move>::empty(),
        ));
        assert(cleanup_fold(cleanup_push(acc, m), Seq::<Move>::empty()) == cleanup_push(acc, m));
        assert(cleanup_fold(acc, ms) == acc);
    } else {
        assert(ms.push(m)[0] == ms[0]);
        assert(ms.push(m).drop_first() =~= ms.drop_first().push(m));
        assert(cleanup_fold(acc, ms.push(m)) == cleanup_fold(
            cleanup_push(acc, ms[0]),
            ms.drop_first().push(m),
        ));
        lemma_cleanup_fold_snoc(cleanup_push(acc, ms[0]), ms.drop_first(), m);
        assert(cleanup_fold(acc, ms) == cleanup_fold(cleanup_push(acc, ms[0]), ms.drop_first()));
    }
}

/// Runs the single cleanup pass over the sequence, in place.
pub fn cleanup_scramble(scramble: &mut Vec<Move>)
    requires
        valid_moves(old(scramble)@),
    ensures
        final(scramble)@ == spec_cleanup(old(scramble)@),
        valid_moves(final(scramble)@),
{
    let mut cleaned: Vec<Move> = Vec::new();
    let mut i: usize = 0;
    while i < scramble.len()
        invariant
            i <= scramble@.len(),
            scramble@ == old(scramble)@,
            valid_moves(scramble@),
            cleaned@ == cleanup_fold(Seq::empty(), scramble@.take(i as int)),
            valid_moves(cleaned@),
        decreases scramble@.len() - i,
    {
        let m = scramble[i];
        let ghost acc = cleaned@;
        if cleaned.len() > 0 {
            let last = cleaned[cleaned.len() - 1];
            if last.inverse() == m {
                cleaned.pop();
            } else if let Some(nm) = last.combine(&m) {
                if nm.count() == 0 {
                    cleaned.pop();
                } else {
                    let k = cleaned.len() - 1;
                    cleaned[k] = nm;
                    proof {
                        assert(cleaned@ =~= acc.drop_last().push(nm));
                    }
                }
            } else {
                cleaned.push(m);
            }
        } else {
            cleaned.push(m);
        }
        proof {
            assert(cleaned@ == cleanup_push(acc, m));
            lemma_cleanup_fold_snoc(Seq::empty(), scramble@.take(i as int), m);
            assert(scramble@.take(i + 1) =~= scramble@.take(i as int).push(scramble@[i as int]));
            assert(forall|k: int|
                0 <= k < cleaned@.len() ==> valid_move(#[trigger] cleaned@[k]));
        }
        i = i + 1;
    }
    proof {
        assert(scramble@.take(scramble@.len() as int) =~= scramble@);
    }
    *scramble = cleaned;
}

/// No two neighbouring moves turn the same face.
pub open spec fn no_adjacent_same_face(ms: Seq<Move>) -> bool {
    forall|i: int| 0 <= i < ms.len() - 1 ==> face_of(#[trigger] ms[i]) != face_of(ms[i + 1])
}

proof fn lemma_cleanup_push_clean(acc: Seq<Move>, m: Move)
    requires
        no_adjacent_same_face(acc),
        valid_moves(acc),
        valid_move(m),
    ensures
        no_adjacent_same_face(cleanup_push(acc, m)),
        valid_moves(cleanup_push(acc, m)),
{
    let r = cleanup_push(acc, m);
    if acc.len() > 0 && spec_inverse(acc.last()) == m {
        assert(no_adjacent_same_face(r)) by {
            assert(forall|i: int|
                0 <= i < r.len() - 1 ==> face_of(#[trigger] r[i]) != face_of(r[i + 1]));
        }
    } else if acc.len() > 0 && face_of(acc.last()) == face_of(m) {
        let c = (count_of(acc.last()) + count_of(m)) % 4;
        if c == 0 {
        } else {
            let nm = move_from(face_of(m), c as u8);
            assert(face_of(nm) == face_of(m));
            assert(valid_move(nm));
            assert(no_adjacent_same_face(r)) by {
                assert(forall|i: int|
                    0 <= i < r.len() - 1 ==> face_of(#[trigger] r[i]) != face_of(r[i + 1]));
            }
        }
    } else {
        assert(no_adjacent_same_face(r)) by {
            assert(forall|i: int|
                0 <= i < r.len() - 1 ==> face_of(#[trigger] r[i]) != face_of(r[i + 1]));
        }
    }
}

proof fn lemma_cleanup_fold_clean(acc: Seq<Move>, ms: Seq<Move>)
    requires
        no_adjacent_same_face(acc),
        valid_moves(acc),
        valid_moves(ms),
    ensures
        no_adjacent_same_face(cleanup_fold(acc, ms)),
        valid_moves(cleanup_fold(acc, ms)),
    decreases ms.len(),
{
    if ms.len() > 0 {
        lemma_cleanup_push_clean(acc, ms[0]);
        assert(valid_moves(ms.drop_first())) by {
            assert(forall|i: int|
                0 <= i < ms.drop_first().len() ==> valid_move(#[trigger] ms.drop_first()[i]));
        }
        lemma_cleanup_fold_clean(cleanup_push(acc, ms[0]), ms.drop_first());
    }
}

proof fn lemma_cleanup_fold_fixed(acc: Seq<Move>, ms: Seq<Move>)
    requires
        no_adjacent_same_face(acc),
        no_adjacent_same_face(ms),
        valid_moves(acc),
        valid_moves(ms),
        acc.len() > 0 && ms.len() > 0 ==> face_of(acc.last()) != face_of(ms[0]),
    ensures
        cleanup_fold(acc, ms) == acc + ms,
    decreases ms.len(),
{
    if ms.len() == 0 {
        assert(acc + ms =~= acc);
    } else {
        let m = ms[0];
        if acc.len() > 0 {
            assert(face_of(spec_inverse(acc.last())) == face_of(acc.last()));
        }
        assert(cleanup_push(acc, m) == acc.push(m));
        let acc2 = acc.push(m);
        let ms2 = ms.drop_first();
        assert(no_adjacent_same_face(acc2)) by {
            assert(forall|i: int|
                0 <= i < acc2.len() - 1 ==> face_of(#[trigger] acc2[i]) != face_of(acc2[i + 1]));
        }
        assert(no_adjacent_same_face(ms2)) by {
            assert(forall|i: int|
                0 <= i < ms2.len() - 1 ==> face_of(#[trigger] ms2[i]) != face_of(ms2[i + 1]));
        }
        assert(valid_moves(ms2)) by {
            assert(forall|i: int| 0 <= i < ms2.len() ==> valid_move(#[trigger] ms2[i]));
        }
        if ms2.len() > 0 {
            assert(ms2[0] == ms[1]);
        }
        lemma_cleanup_fold_fixed(acc2, ms2);
        assert(acc2 + ms2 =~= acc + ms);
    }
}

/// The SHA-256 digest of a byte sequence, named; what it holds on given
/// bytes is fixed by the hash function alone.
pub uninterp spec fn sha256_of(data: Seq<u8>) -> Seq<u8>;

/// Relies on sha2's Sha256: the digest is a function of the input bytes
/// alone, 32 bytes long.
#[verifier::external_body]
fn sha256(data: &[u8]) -> (r: Vec<u8>)
    ensures
        r@ == sha256_of(data@),
        r@.len() == 32,
{
    let mut hasher = sha2::Sha256::new();
    hasher.update(data);
    hasher.finalize().to_vec()
}

/// The bytes hashed for a block: `parentHash|name|message` in UTF-8.
pub open spec fn spec_format_data(p: Seq<char>, n: Seq<char>, m: Seq<char>) -> Seq<u8> {
    vstd::utf8::encode_utf8(p + seq!['|'] + n + seq!['|'] + m)
}

/// Builds the byte string `parentHash|name|message`.
pub fn format_data(parent_hash: &str, name: &str, message: &str) -> (r: Vec<u8>)
    ensures
        r@ == spec_format_data(parent_hash@, name@, message@),
{
    let mut s = String::new();
    s.append(parent_hash);
    let bar = "|";
    proof {
        reveal_strlit("|");
        assert(bar@ =~= seq!['|']);
    }
    s.append(bar);
    s.append(name);
    s.append(bar);
    s.append(message);
    let r = s.as_str().as_bytes_vec();
    proof {
        assert(s@ == parent_hash@ + seq!['|'] + name@ + seq!['|'] + message@);
    }
    r
}

/// A byte sequence read as a big-endian unsigned integer.
pub open spec fn be_val(b: Seq<u8>) -> nat
    decreases b.len(),
{
    if b.len() == 0 {
        0
    } else {
        (be_val(b.drop_last()) * 256 + b.last()) as nat
    }
}

/// The digit alphabet 0123456789ABCDEFGH.
pub open spec fn base18_digit(d: int) -> char {
    if d == 0 { '0' } else if d == 1 { '1' } else if d == 2 { '2' } else if d == 3 { '3' }
    else if d == 4 { '4' } else if d == 5 { '5' } else if d == 6 { '6' } else if d == 7 { '7' }
    else if d == 8 { '8' } else if d == 9 { '9' } else if d == 10 { 'A' } else if d == 11 { 'B' }
    else if d == 12 { 'C' } else if d == 13 { 'D' } else if d == 14 { 'E' } else if d == 15 { 'F' }
    else if d == 16 { 'G' } else { 'H' }
}

/// The base-18 text of a number, most significant digit first, with no
/// leading-zero padding; zero yields the empty text.
pub open spec fn base18_chars(n: nat) -> Seq<char>
    decreases n,
{
    if n == 0 {
        Seq::empty()
    } else {
        base18_chars(n / 18) + seq![base18_digit((n % 18) as int)]
    }
}

/// One base-18 digit as text.
fn base18_digit_str(d: usize) -> (r: &'static str)
    requires
        d < 18,
    ensures
        r@ == seq![base18_digit(d as int)],
{
    let table = ["0", "1", "2", "3", "4", "5", "6", "7", "8", "9", "A", "B", "C", "D", "E", "F",
        "G", "H"];
    let r = table[d];
    proof {
        reveal_strlit("0");
        reveal_strlit("1");
        reveal_strlit("2");
        reveal_strlit("3");
        reveal_strlit("4");
        reveal_strlit("5");
        reveal_strlit("6");
        reveal_strlit("7");
        reveal_strlit("8");
        reveal_strlit("9");
        reveal_strlit("A");
        reveal_strlit("B");
        reveal_strlit("C");
        reveal_strlit("D");
        reveal_strlit("E");
        reveal_strlit("F");
        reveal_strlit("G");
        reveal_strlit("H");
        assert(r@ =~= seq![base18_digit(d as int)]);
    }
    r
}

/// Renders a number in base 18, most significant digit first.
fn base18_render(n: u128) -> (s: String)
    ensures
        s@ == base18_chars(n as nat),
    decreases n,
{
    if n == 0 {
        String::new()
    } else {
        let q = n / 18;
        proof {
            vstd::arithmetic::div_mod::lemma_div_decreases(n as int, 18);
        }
        let mut s = base18_render(q);
        let d = (n % 18) as usize;
        s.append(base18_digit_str(d));
        s
    }
}

/// An upper bound for `k` big-endian bytes.
pub open spec fn byte_bound(k: nat) -> nat
    decreases k,
{
    if k == 0 {
        1
    } else {
        256 * byte_bound((k - 1) as nat)
    }
}

proof fn lemma_be_val_bound(b: Seq<u8>)
    ensures
        be_val(b) < byte_bound(b.len()),
    decreases b.len(),
{
    if b.len() > 0 {
        lemma_be_val_bound(b.drop_last());
    }
}

proof fn lemma_byte_bound_16()
    ensures
        byte_bound(16) == 0x100000000000000000000000000000000,
{
    reveal_with_fuel(byte_bound, 17);
}

/// The hash of the given bytes: the first 16 bytes of the SHA-256 digest,
/// read big-endian, written in base 18.
pub fn calculate_hash(data: &[u8]) -> (r: String)
    ensures
        r@ == base18_chars(be_val(sha256_of(data@).subrange(0, 16))),
{
    let digest = sha256(data);
    let mut n: u128 = 0;
    let mut i: usize = 0;
    proof {
        assert(digest@.subrange(0, 0) =~= Seq::<u8>::empty());
    }
    while i < 16
        invariant
            i <= 16,
            digest@.len() == 32,
            digest@ == sha256_of(data@),
            n as nat == be_val(digest@.subrange(0, i as int)),
            (n as nat) < byte_bound(i as nat),
        decreases 16 - i,
    {
        let b = digest[i];
        proof {
            lemma_byte_bound_16();
            let pre = digest@.subrange(0, i as int);
            let post = digest@.subrange(0, i + 1);
            assert(post.drop_last() =~= pre);
            assert(post.last() == digest@[i as int]);
            assert(byte_bound((i + 1) as nat) == 256 * byte_bound(i as nat));
            assert(n as nat * 256 + b < byte_bound((i + 1) as nat));
            assert(byte_bound((i + 1) as nat) <= byte_bound(16)) by {
                lemma_byte_bound_monotone((i + 1) as nat, 16);
            }
        }
        n = n * 256 + b as u128;
        i = i + 1;
    }
    base18_render(n)
}

proof fn lemma_byte_bound_monotone(a: nat, b: nat)
    requires
        a <= b,
    ensures
        byte_bound(a) <= byte_bound(b),
    decreases b,
{
    if a < b {
        lemma_byte_bound_monotone(a, (b - 1) as nat);
        assert(byte_bound(b) == 256 * byte_bound((b - 1) as nat));
    }
}

/// Law: the cleanup pass is idempotent. Its output never holds two
/// neighbouring moves of one face, and such a sequence passes through
/// the pass unchanged.
pub proof fn lemma_cleanup_idempotent(ms: Seq<Move>)
    requires
        valid_moves(ms),
    ensures
        spec_cleanup(spec_cleanup(ms)) == spec_cleanup(ms),
{
    lemma_cleanup_fold_clean(Seq::empty(), ms);
    lemma_cleanup_fold_fixed(Seq::empty(), spec_cleanup(ms));
    assert(Seq::<Move>::empty() + spec_cleanup(ms) =~= spec_cleanup(ms));
}

/// The corner pieces after a sequence of moves, applied left to right.
pub open spec fn apply_seq_corners(ms: Seq<Move>, s: Seq<Piece>) -> Seq<Piece>
    decreases ms.len(),
{
    if ms.len() == 0 {
        s
    } else {
        apply_seq_corners(ms.drop_first(), move_corners(ms[0], s))
    }
}

/// The edge pieces after a sequence of moves, applied left to right.
pub open spec fn apply_seq_edges(ms: Seq<Move>, s: Seq<Piece>) -> Seq<Piece>
    decreases ms.len(),
{
    if ms.len() == 0 {
        s
    } else {
        apply_seq_edges(ms.drop_first(), move_edges(ms[0], s))
    }
}

/// A solution solves a scramble when applying the scramble and then the
/// solution to the solved cube yields the solved cube again.
pub open spec fn spec_solves(scramble: Seq<Move>, solution: Seq<Move>) -> bool {
    &&& apply_seq_corners(solution, apply_seq_corners(scramble, solved_pieces(8)))
        == solved_pieces(8)
    &&& apply_seq_edges(solution, apply_seq_edges(scramble, solved_pieces(12)))
        == solved_pieces(12)
}

proof fn lemma_apply_seq_snoc(ms: Seq<Move>, m: Move, s: Seq<Piece>)
    ensures
        apply_seq_corners(ms.push(m), s) == move_corners(m, apply_seq_corners(ms, s)),
        apply_seq_edges(ms.push(m), s) == move_edges(m, apply_seq_edges(ms, s)),
    decreases ms.len(),
{
    if ms.len() == 0 {
        assert(ms.push(m)[0] == m);
        assert(ms.push(m).drop_first() =~= Seq::<Move>::empty());
        assert(apply_seq_corners(Seq::<Move>::empty(), move_corners(m, s)) == move_corners(m, s));
        assert(apply_seq_edges(Seq::<Move>::empty(), move_edges(m, s)) == move_edges(m, s));
    } else {
        assert(ms.push(m)[0] == ms[0]);
        assert(ms.push(m).drop_first() =~= ms.drop_first().push(m));
        assert(apply_seq_corners(ms.push(m), s) == apply_seq_corners(
            ms.drop_first().push(m),
            move_corners(ms[0], s),
        ));
        assert(apply_seq_edges(ms.push(m), s) == apply_seq_edges(
            ms.drop_first().push(m),
            move_edges(ms[0], s),
        ));
        lemma_apply_seq_snoc(ms.drop_first(), m, move_corners(ms[0], s));
        lemma_apply_seq_snoc(ms.drop_first(), m, move_edges(ms[0], s));
    }
}

/// Applies every move of the sequence to the cube, in order.
fn apply_all(cube: &mut Cube, moves: &[Move])
    requires
        old(cube).wf(),
        valid_moves(moves@),
    ensures
        final(cube).wf(),
        final(cube).corners@ == apply_seq_corners(moves@, old(cube).corners@),
        final(cube).edges@ == apply_seq_edges(moves@, old(cube).edges@),
{
    let mut i: usize = 0;
    while i < moves.len()
        invariant
            i <= moves@.len(),
            valid_moves(moves@),
            cube.wf(),
            cube.corners@ == apply_seq_corners(moves@.take(i as int), old(cube).corners@),
            cube.edges@ == apply_seq_edges(moves@.take(i as int), old(cube).edges@),
        decreases moves@.len() - i,
    {
        cube.apply_move(moves[i]);
        proof {
            assert(moves@.take(i + 1) =~= moves@.take(i as int).push(moves@[i as int]));
            lemma_apply_seq_snoc(moves@.take(i as int), moves@[i as int], old(cube).corners@);
            lemma_apply_seq_snoc(moves@.take(i as int), moves@[i as int], old(cube).edges@);
        }
        i = i + 1;
    }
    proof {
        assert(moves@.take(moves@.len() as int) =~= moves@);
    }
}

/// Checks a candidate solution: starts from the solved cube, applies the
/// whole scramble and then the whole solution, and reports whether the
/// cube is back in the solved state.
pub fn verify_solution(scramble: &[Move], solution: &[Move]) -> (r: bool)
    requires
        valid_moves(scramble@),
        valid_moves(solution@),
    ensures
        r == spec_solves(scramble@, solution@),
{
    let mut cube = Cube::solved();
    apply_all(&mut cube, scramble);
    apply_all(&mut cube, solution);
    cube.is_solved()
}

/// The inverse of a move sequence: the moves reversed, each inverted.
pub open spec fn spec_invert_sequence(ms: Seq<Move>) -> Seq<Move> {
    Seq::new(ms.len(), |i: int| spec_inverse(ms[ms.len() - 1 - i]))
}

proof fn lemma_apply_then_invert(ms: Seq<Move>, c: Seq<Piece>, e: Seq<Piece>)
    requires
        valid_moves(ms),
        c.len() == 8,
        crate::cube::pieces_wf(c, 8, 3),
        e.len() == 12,
        crate::cube::pieces_wf(e, 12, 2),
    ensures
        apply_seq_corners(spec_invert_sequence(ms), apply_seq_corners(ms, c)) == c,
        apply_seq_edges(spec_invert_sequence(ms), apply_seq_edges(ms, e)) == e,
    decreases ms.len(),
{
    if ms.len() == 0 {
        assert(spec_invert_sequence(ms) =~= Seq::<Move>::empty());
    } else {
        let m = ms[0];
        let rest = ms.drop_first();
        assert(valid_moves(rest)) by {
            assert(forall|i: int| 0 <= i < rest.len() ==> valid_move(#[trigger] rest[i]));
        }
        let c1 = move_corners(m, c);
        let e1 = move_edges(m, e);
        crate::cube::lemma_move_wf(m, c, e);
        lemma_apply_then_invert(rest, c1, e1);
        assert(spec_invert_sequence(ms) =~= spec_invert_sequence(rest).push(spec_inverse(m)));
        assert(apply_seq_corners(ms, c) == apply_seq_corners(rest, c1));
        assert(apply_seq_edges(ms, e) == apply_seq_edges(rest, e1));
        lemma_apply_seq_snoc(spec_invert_sequence(rest), spec_inverse(m), apply_seq_corners(ms, c));
        lemma_apply_seq_snoc(spec_invert_sequence(rest), spec_inverse(m), apply_seq_edges(ms, e));
        crate::cube::lemma_move_inverse_corners(m, c);
        crate::cube::lemma_move_inverse_edges(m, e);
    }
}

proof fn lemma_apply_seq_wf(ms: Seq<Move>, c: Seq<Piece>, e: Seq<Piece>)
    requires
        valid_moves(ms),
        c.len() == 8,
        crate::cube::pieces_wf(c, 8, 3),
        e.len() == 12,
        crate::cube::pieces_wf(e, 12, 2),
    ensures
        apply_seq_corners(ms, c).len() == 8,
        crate::cube::pieces_wf(apply_seq_corners(ms, c), 8, 3),
        apply_seq_edges(ms, e).len() == 12,
        crate::cube::pieces_wf(apply_seq_edges(ms, e), 12, 2),
    decreases ms.len(),
{
    if ms.len() > 0 {
        crate::cube::lemma_move_wf(ms[0], c, e);
        assert(valid_moves(ms.drop_first())) by {
            assert(forall|i: int|
                0 <= i < ms.drop_first().len() ==> valid_move(#[trigger] ms.drop_first()[i]));
        }
        lemma_apply_seq_wf(ms.drop_first(), move_corners(ms[0], c), move_edges(ms[0], e));
    }
}

/// Every valid move is the move built from its own face and count.
proof fn lemma_move_from_parts(m: Move)
    ensures
        m == move_from(face_of(m), count_of(m) as u8),
{
}

proof fn lemma_cleanup_push_sem(acc: Seq<Move>, m: Move, c: Seq<Piece>, e: Seq<Piece>)
    requires
        valid_moves(acc),
        valid_move(m),
        c.len() == 8,
        crate::cube::pieces_wf(c, 8, 3),
        e.len() == 12,
        crate::cube::pieces_wf(e, 12, 2),
    ensures
        apply_seq_corners(cleanup_push(acc, m), c) == move_corners(m, apply_seq_corners(acc, c)),
        apply_seq_edges(cleanup_push(acc, m), e) == move_edges(m, apply_seq_edges(acc, e)),
{
    if acc.len() == 0 {
        assert(cleanup_push(acc, m) == acc.push(m));
        lemma_apply_seq_snoc(acc, m, c);
        lemma_apply_seq_snoc(acc, m, e);
    } else {
        let last = acc.last();
        let pre = acc.drop_last();
        assert(valid_moves(pre)) by {
            assert(forall|i: int| 0 <= i < pre.len() ==> valid_move(#[trigger] pre[i]));
        }
        assert(acc =~= pre.push(last));
        lemma_apply_seq_snoc(pre, last, c);
        lemma_apply_seq_snoc(pre, last, e);
        lemma_apply_seq_wf(pre, c, e);
        let xc = apply_seq_corners(pre, c);
        let xe = apply_seq_edges(pre, e);
        if spec_inverse(last) == m {
            crate::cube::lemma_move_inverse_corners(last, xc);
            crate::cube::lemma_move_inverse_edges(last, xe);
        } else if face_of(last) == face_of(m) {
            let cnt = (count_of(last) + count_of(m)) % 4;
            crate::cube::lemma_combine_matches_application(last, m, xc, xe);
            if cnt == 0 {
                assert(count_of(m) == 4 - count_of(last));
                lemma_move_from_parts(m);
                assert(m == spec_inverse(last));
                assert(false);
            } else {
                let merged = move_from(face_of(m), cnt as u8);
                lemma_apply_seq_snoc(pre, merged, c);
                lemma_apply_seq_snoc(pre, merged, e);
            }
        } else {
            lemma_apply_seq_snoc(acc, m, c);
            lemma_apply_seq_snoc(acc, m, e);
        }
    }
}

proof fn lemma_cleanup_fold_sem(acc: Seq<Move>, ms: Seq<Move>, c: Seq<Piece>, e: Seq<Piece>)
    requires
        valid_moves(acc),
        valid_moves(ms),
        c.len() == 8,
        crate::cube::pieces_wf(c, 8, 3),
        e.len() == 12,
        crate::cube::pieces_wf(e, 12, 2),
    ensures
        apply_seq_corners(cleanup_fold(acc, ms), c) == apply_seq_corners(
            ms,
            apply_seq_corners(acc, c),
        ),
        apply_seq_edges(cleanup_fold(acc, ms), e) == apply_seq_edges(ms, apply_seq_edges(acc, e)),
    decreases ms.len(),
{
    if ms.len() > 0 {
        let m = ms[0];
        let rest = ms.drop_first();
        assert(valid_moves(rest)) by {
            assert(forall|i: int| 0 <= i < rest.len() ==> valid_move(#[trigger] rest[i]));
        }
        lemma_cleanup_push_sem(acc, m, c, e);
        lemma_cleanup_push_clean_valid(acc, m);
        lemma_cleanup_fold_sem(cleanup_push(acc, m), rest, c, e);
    }
}

proof fn lemma_cleanup_push_clean_valid(acc: Seq<Move>, m: Move)
    requires
        valid_moves(acc),
        valid_move(m),
    ensures
        valid_moves(cleanup_push(acc, m)),
{
    let r = cleanup_push(acc, m);
    assert forall|i: int| 0 <= i < r.len() implies valid_move(#[trigger] r[i]) by {
        if acc.len() > 0 && spec_inverse(acc.last()) == m {
        } else if acc.len() > 0 && face_of(acc.last()) == face_of(m) {
        }
    }
}

/// Law: the cleanup pass does not change what a move sequence does to a
/// well-formed cube state.
pub proof fn lemma_cleanup_preserves_effect(ms: Seq<Move>, c: Seq<Piece>, e: Seq<Piece>)
    requires
        valid_moves(ms),
        c.len() == 8,
        crate::cube::pieces_wf(c, 8, 3),
        e.len() == 12,
        crate::cube::pieces_wf(e, 12, 2),
    ensures
        apply_seq_corners(spec_cleanup(ms), c) == apply_seq_corners(ms, c),
        apply_seq_edges(spec_cleanup(ms), e) == apply_seq_edges(ms, e),
{
    lemma_cleanup_fold_sem(Seq::empty(), ms, c, e);
}

/// Law: a solution verifies against the cleaned scramble exactly when it
/// verifies against the raw one.
pub proof fn lemma_cleanup_preserves_solutions(scramble: Seq<Move>, solution: Seq<Move>)
    requires
        valid_moves(scramble),
        valid_moves(solution),
    ensures
        spec_solves(spec_cleanup(scramble), solution) == spec_solves(scramble, solution),
{
    lemma_cleanup_preserves_effect(scramble, solved_pieces(8), solved_pieces(12));
}

/// Law: a move sequence followed by its inversion brings the solved cube
/// back to solved, so the inversion of a scramble always solves it.
pub proof fn lemma_invert_sequence_solves(ms: Seq<Move>)
    requires
        valid_moves(ms),
    ensures
        spec_solves(ms, spec_invert_sequence(ms)),
{
    lemma_apply_then_invert(ms, solved_pieces(8), solved_pieces(12));
}

/// Undoes a move sequence: reverses it and inverts each move. The result
/// is a solution to the input taken as a scramble.
pub fn invert_sequence(moves: &[Move]) -> (r: Vec<Move>)
    requires
        valid_moves(moves@),
    ensures
        r@ == spec_invert_sequence(moves@),
        valid_moves(r@),
        spec_solves(moves@, r@),
{
    proof {
        lemma_invert_sequence_solves(moves@);
    }
    let mut out: Vec<Move> = Vec::new();
    let len = moves.len();
    let mut i: usize = 0;
    while i < len
        invariant
            i <= len,
            len == moves@.len(),
            valid_moves(moves@),
            out@.len() == i as int,
            forall|k: int|
                0 <= k < i as int ==> #[trigger] out@[k] == spec_inverse(
                    moves@[len - 1 - k as int],
                ),
            valid_moves(out@),
        decreases len - i,
    {
        out.push(moves[len - 1 - i].inverse());
        i = i + 1;
    }
    proof {
        assert(out@ =~= spec_invert_sequence(moves@));
    }
    out
}

} // verus!

