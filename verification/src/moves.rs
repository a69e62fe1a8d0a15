//! Named face turns and move sequences.
//!
//! A sequence is a list of tokens separated by single spaces. A token is a face
//! letter, optionally followed by `2` (the turn twice) or `'` (the turn three
//! times, which undoes one turn).

use vstd::prelude::*;
use vstd::string::StrSliceExecFns;
use crate::cube::{lemma_rotated_valid, rotated, valid_state, Cube, Piece};

verus! {

/// `c` names one of the six faces.
pub open spec fn is_face(c: char) -> bool {
    c == 'U' || c == 'D' || c == 'F' || c == 'B' || c == 'L' || c == 'R'
}

/// The cube after one quarter turn of the face `face`.
pub open spec fn face_turn(c: Seq<Piece>, face: char) -> Seq<Piece> {
    if face == 'U' {
        rotated(c, 1, 0, 2, 1)
    } else if face == 'D' {
        rotated(c, 1, 2, 0, -1)
    } else if face == 'F' {
        rotated(c, 2, 0, 1, -1)
    } else if face == 'B' {
        rotated(c, 2, 1, 0, 1)
    } else if face == 'L' {
        rotated(c, 0, 1, 2, -1)
    } else if face == 'R' {
        rotated(c, 0, 2, 1, 1)
    } else {
        c
    }
}

/// The cube after `times` quarter turns of the face `face`.
pub open spec fn face_turns(c: Seq<Piece>, face: char, times: nat) -> Seq<Piece>
    decreases times,
{
    if times == 0 {
        c
    } else {
        face_turn(face_turns(c, face, (times - 1) as nat), face)
    }
}

/// `t` is a face letter, alone or followed by `2` or `'`.
pub open spec fn valid_token(t: Seq<char>) -> bool {
    &&& t.len() == 1 || t.len() == 2
    &&& is_face(t[0])
    &&& t.len() == 2 ==> t[1] == '2' || t[1] == '\''
}

/// How many quarter turns the token `t` stands for.
pub open spec fn token_turns(t: Seq<char>) -> nat {
    if t.len() < 2 {
        1
    } else if t[1] == '\'' {
        3
    } else {
        2
    }
}

/// The cube after the moves of the token `t`.
pub open spec fn token_result(c: Seq<Piece>, t: Seq<char>) -> Seq<Piece> {
    face_turns(c, t[0], token_turns(t))
}

/// The length of the first token of `s`: the number of characters before the
/// first space, or all of them where there is no space.
pub open spec fn token_len(s: Seq<char>) -> nat
    decreases s.len(),
{
    if s.len() == 0 || s[0] == ' ' {
        0
    } else {
        1 + token_len(s.skip(1))
    }
}

/// Every token of `s` is valid. The empty sequence holds one empty token and
/// is not valid.
pub open spec fn valid_sequence(s: Seq<char>) -> bool
    decreases s.len(),
{
    let n = token_len(s) as int;
    &&& valid_token(s.take(n))
    &&& n < s.len() ==> valid_sequence(s.skip(n + 1))
}

/// The cube after the tokens of `s`, applied from left to right.
pub open spec fn sequence_result(c: Seq<Piece>, s: Seq<char>) -> Seq<Piece>
    decreases s.len(),
{
    let n = token_len(s) as int;
    let next = token_result(c, s.take(n));
    if n < s.len() {
        sequence_result(next, s.skip(n + 1))
    } else {
        next
    }
}

/// The first token ends where the first space stands, or at the end.
pub proof fn lemma_token_len(s: Seq<char>)
    ensures
        token_len(s) <= s.len(),
        forall|k: int| 0 <= k < token_len(s) ==> s[k] != ' ',
        token_len(s) < s.len() ==> s[token_len(s) as int] == ' ',
    decreases s.len(),
{
    if s.len() == 0 || s[0] == ' ' {
    } else {
        lemma_token_len(s.skip(1));
        assert forall|k: int| 0 <= k < token_len(s) implies s[k] != ' ' by {
            if k > 0 {
                assert(s[k] == s.skip(1)[k - 1]);
            }
        }
        if token_len(s) < s.len() {
            assert(s[token_len(s) as int] == s.skip(1)[token_len(s.skip(1)) as int]);
        }
    }
}

/// A run of `n` characters without a space, followed by a space or by the
/// end, is the first token.
pub proof fn lemma_token_len_is(s: Seq<char>, n: int)
    requires
        0 <= n <= s.len(),
        forall|k: int| 0 <= k < n ==> s[k] != ' ',
        n < s.len() ==> s[n] == ' ',
    ensures
        token_len(s) == n,
    decreases n,
{
    if n > 0 {
        let rest = s.skip(1);
        assert forall|k: int| 0 <= k < n - 1 implies rest[k] != ' ' by {
            assert(rest[k] == s[k + 1]);
        }
        lemma_token_len_is(rest, n - 1);
    }
}

/// A turn of a named face keeps a reachable state reachable and leaves the
/// core piece alone.
pub proof fn lemma_face_turn_valid(c: Seq<Piece>, face: char)
    requires
        valid_state(c),
    ensures
        valid_state(face_turn(c, face)),
        face_turn(c, face)[13] == c[13],
{
    if face == 'U' {
        lemma_rotated_valid(c, 1, 0, 2, 1);
    } else if face == 'D' {
        lemma_rotated_valid(c, 1, 2, 0, -1);
    } else if face == 'F' {
        lemma_rotated_valid(c, 2, 0, 1, -1);
    } else if face == 'B' {
        lemma_rotated_valid(c, 2, 1, 0, 1);
    } else if face == 'L' {
        lemma_rotated_valid(c, 0, 1, 2, -1);
    } else if face == 'R' {
        lemma_rotated_valid(c, 0, 2, 1, 1);
    }
}

/// Whether the characters of `alg` from `start` up to `end` are one token.
fn is_valid_token(alg: &str, start: usize, end: usize) -> (valid: bool)
    requires
        start <= end <= alg@.len(),
    ensures
        valid == valid_token(alg@.subrange(start as int, end as int)),
{
    let ghost token = alg@.subrange(start as int, end as int);
    if end - start != 1 && end - start != 2 {
        return false;
    }
    let face = alg.get_char(start);
    assert(face == token[0]);
    if !(face == 'U' || face == 'D' || face == 'F' || face == 'B' || face == 'L' || face == 'R') {
        return false;
    }
    if end - start == 2 {
        let modifier = alg.get_char(start + 1);
        assert(modifier == token[1]);
        if modifier != '2' && modifier != '\'' {
            return false;
        }
    }
    true
}

/// Whether `alg` is a move sequence: tokens of a face letter and at most one
/// modifier, separated by single spaces.
pub fn is_valid_sequence(alg: &str) -> (valid: bool)
    ensures
        valid == valid_sequence(alg@),
{
    let len = alg.unicode_len();
    let mut start: usize = 0;
    assert(alg@.skip(0) =~= alg@);
    loop
        invariant
            start <= len,
            len == alg@.len(),
            valid_sequence(alg@) == valid_sequence(alg@.skip(start as int)),
        decreases len - start,
    {
        let ghost rest = alg@.skip(start as int);
        let mut end: usize = start;
        while end < len && alg.get_char(end) != ' '
            invariant
                start <= end <= len,
                len == alg@.len(),
                forall|k: int| start <= k < end ==> alg@[k] != ' ',
            decreases len - end,
        {
            end += 1;
        }
        proof {
            lemma_token_len_is(rest, end - start);
            assert(rest.take(end - start) =~= alg@.subrange(start as int, end as int));
        }
        if !is_valid_token(alg, start, end) {
            return false;
        }
        if end == len {
            return true;
        }
        assert(rest.skip(end - start + 1) =~= alg@.skip(end + 1));
        start = end + 1;
    }
}

impl Cube {
    /// Turns the face named by `m` a quarter.
    pub fn do_move(&mut self, m: &str)
        requires
            old(self).wf(),
            m@.len() == 1,
            is_face(m@[0]),
        ensures
            final(self)@ == face_turn(old(self)@, m@[0]),
            final(self).wf(),
            final(self)@[13] == old(self)@[13],
    {
        let face = m.get_char(0);
        if face == 'U' {
            self.rotate(1, 0, 2, 1)
        } else if face == 'D' {
            self.rotate(1, 2, 0, -1)
        } else if face == 'F' {
            self.rotate(2, 0, 1, -1)
        } else if face == 'B' {
            self.rotate(2, 1, 0, 1)
        } else if face == 'L' {
            self.rotate(0, 1, 2, -1)
        } else {
            self.rotate(0, 2, 1, 1)
        }
    }

    /// Applies the moves of `alg` from left to right.
    pub fn apply_sequence(&mut self, alg: &str)
        requires
            old(self).wf(),
            valid_sequence(alg@),
        ensures
            final(self)@ == sequence_result(old(self)@, alg@),
            final(self).wf(),
            final(self)@[13] == old(self)@[13],
    {
        let len = alg.unicode_len();
        let mut start: usize = 0;
        assert(alg@.skip(0) =~= alg@);
        loop
            invariant_except_break
                start <= len,
                len == alg@.len(),
                self.wf(),
                self@[13] == old(self)@[13],
                valid_sequence(alg@.skip(start as int)),
                sequence_result(old(self)@, alg@) == sequence_result(
                    self@,
                    alg@.skip(start as int),
                ),
            ensures
                self.wf(),
                self@[13] == old(self)@[13],
                self@ == sequence_result(old(self)@, alg@),
            decreases len - start,
        {
            let ghost rest = alg@.skip(start as int);
            let ghost before = self@;
            proof {
                lemma_token_len(rest);
            }
            let ghost token = rest.take(token_len(rest) as int);
            assert(token[0] == alg@[start as int]);
            let s = alg.substring_char(start, start + 1);
            self.do_move(s);
            assert(self@ == face_turns(before, token[0], 1)) by {
                reveal_with_fuel(face_turns, 2);
            }
            let mut end: usize = start + 1;
            if end < len && alg.get_char(end) != ' ' {
                assert(token[1] == alg@[end as int]);
                self.do_move(s);
                if alg.get_char(end) == '\'' {
                    self.do_move(s);
                }
                assert(self@ == face_turns(before, token[0], token_turns(token))) by {
                    reveal_with_fuel(face_turns, 4);
                }
                end += 1;
            }
            assert(end - start == token_len(rest));
            assert(self@ == token_result(before, token));
            if end == len {
                break ;
            }
            assert(rest.skip(end - start + 1) =~= alg@.skip(end + 1));
            start = end + 1;
        }
    }
}

} // verus!
