use vstd::prelude::*;

use crate::gesture_detector::Side;
use crate::gesture_detector::Direction;
use crate::gesture_detector::GestureDetector;
use crate::gesture_detector::DetectorModel;

verus! {

/// What a matched gesture does: spawn a command, or switch passthrough mode,
/// in which every touch is accepted and gesture interception stops.
/// "disable touch screen" turns passthrough on; "enable" turns it off.
pub enum Effect {
    RunCommand(Vec<u8>),
    PassthroughOn,
    PassthroughOff,
    PassthroughToggle,
}

/// The mathematical shape of an effect.
pub enum EffectModel {
    RunCommand(Seq<u8>),
    PassthroughOn,
    PassthroughOff,
    PassthroughToggle,
}

impl View for Effect {
    type V = EffectModel;

    closed spec fn view(&self) -> EffectModel {
        match self {
            Effect::RunCommand(cmd) => EffectModel::RunCommand(cmd@),
            Effect::PassthroughOn => EffectModel::PassthroughOn,
            Effect::PassthroughOff => EffectModel::PassthroughOff,
            Effect::PassthroughToggle => EffectModel::PassthroughToggle,
        }
    }
}

/// One configured action: the gesture signature it answers to, and its effect.
pub struct Action {
    pub side: Side,
    pub direction: Direction,
    pub num_fingers: u32,
    pub effect: Effect,
}

/// The mathematical shape of an action.
pub struct ActionModel {
    pub side: Side,
    pub direction: Direction,
    pub num_fingers: u32,
    pub effect: EffectModel,
}

impl View for Action {
    type V = ActionModel;

    closed spec fn view(&self) -> ActionModel {
        ActionModel {
            side: self.side,
            direction: self.direction,
            num_fingers: self.num_fingers,
            effect: self.effect@,
        }
    }
}

/// A keyword of the descriptor language, case-insensitive in the input.
#[derive(PartialEq, Eq, Structural, Debug, Copy, Clone)]
pub enum Keyword {
    From,
    To,
    With,
    Up,
    Top,
    Right,
    Down,
    Bottom,
    Left,
    Run,
    Execute,
    Exec,
    Command,
    Cmd,
    Disable,
    Stop,
    Turn,
    Off,
    Enable,
    Start,
    On,
    Toggle,
    Touch,
    Screen,
    Fingers,
    Touches,
    Finger,
    One,
    Two,
    Three,
    Four,
    Five,
    Six,
    Seven,
    Eight,
    Nine,
    Ten,
}

/// One token of a descriptor: a keyword, a decimal count, a quoted command
/// string, or a word the language does not know.
pub enum Token {
    Key(Keyword),
    Number(u32),
    Quoted(Vec<u8>),
    Other,
}

/// The mathematical shape of a token.
pub enum TokenModel {
    Key(Keyword),
    Number(u32),
    Quoted(Seq<u8>),
    Other,
}

impl View for Token {
    type V = TokenModel;

    closed spec fn view(&self) -> TokenModel {
        match self {
            Token::Key(k) => TokenModel::Key(*k),
            Token::Number(n) => TokenModel::Number(*n),
            Token::Quoted(q) => TokenModel::Quoted(q@),
            Token::Other => TokenModel::Other,
        }
    }
}

pub open spec fn toks_view(toks: Seq<Token>) -> Seq<TokenModel> {
    toks.map_values(|t: Token| t@)
}

pub open spec fn is_space(b: u8) -> bool {
    b == 32 || b == 9 || b == 10 || b == 13
}

pub open spec fn is_quote(b: u8) -> bool {
    b == ('"' as u8) || b == ('\'' as u8)
}

pub open spec fn is_digit(b: u8) -> bool {
    ('0' as u8) <= b <= ('9' as u8)
}

/// ASCII lowering of one byte.
pub open spec fn to_lower(b: u8) -> u8 {
    if ('A' as u8) <= b <= ('Z' as u8) {
        (b + 32) as u8
    } else {
        b
    }
}

pub open spec fn lower_seq(s: Seq<u8>) -> Seq<u8> {
    s.map_values(|b: u8| to_lower(b))
}

/// Whether the word is one or more decimal digits.
pub open spec fn all_digits(w: Seq<u8>) -> bool {
    w.len() > 0 && forall|i: int| 0 <= i < w.len() ==> is_digit(w[i])
}

/// The number the digits spell.
pub open spec fn digits_value(w: Seq<u8>) -> int
    decreases w.len(),
{
    if w.len() == 0 {
        0
    } else {
        digits_value(w.drop_last()) * 10 + (w.last() - ('0' as u8))
    }
}

/// The keyword an already-lowered word spells, if any.
pub open spec fn spec_keyword(l: Seq<u8>) -> Option<Keyword> {
    if l.len() == 2 {
        if l[0] == ('t' as u8) && l[1] == ('o' as u8) {
            Some(Keyword::To)
        } else if l[0] == ('u' as u8) && l[1] == ('p' as u8) {
            Some(Keyword::Up)
        } else if l[0] == ('o' as u8) && l[1] == ('n' as u8) {
            Some(Keyword::On)
        } else {
            None
        }
    } else if l.len() == 3 {
        if l[0] == ('r' as u8) && l[1] == ('u' as u8) && l[2] == ('n' as u8) {
            Some(Keyword::Run)
        } else if l[0] == ('c' as u8) && l[1] == ('m' as u8) && l[2] == ('d' as u8) {
            Some(Keyword::Cmd)
        } else if l[0] == ('o' as u8) && l[1] == ('f' as u8) && l[2] == ('f' as u8) {
            Some(Keyword::Off)
        } else if l[0] == ('t' as u8) && l[1] == ('o' as u8) && l[2] == ('p' as u8) {
            Some(Keyword::Top)
        } else if l[0] == ('o' as u8) && l[1] == ('n' as u8) && l[2] == ('e' as u8) {
            Some(Keyword::One)
        } else if l[0] == ('t' as u8) && l[1] == ('w' as u8) && l[2] == ('o' as u8) {
            Some(Keyword::Two)
        } else if l[0] == ('s' as u8) && l[1] == ('i' as u8) && l[2] == ('x' as u8) {
            Some(Keyword::Six)
        } else if l[0] == ('t' as u8) && l[1] == ('e' as u8) && l[2] == ('n' as u8) {
            Some(Keyword::Ten)
        } else {
            None
        }
    } else if l.len() == 4 {
        if l[0] == ('f' as u8) && l[1] == ('r' as u8) && l[2] == ('o' as u8) && l[3] == (
        'm' as u8) {
            Some(Keyword::From)
        } else if l[0] == ('w' as u8) && l[1] == ('i' as u8) && l[2] == ('t' as u8) && l[3] == (
        'h' as u8) {
            Some(Keyword::With)
        } else if l[0] == ('d' as u8) && l[1] == ('o' as u8) && l[2] == ('w' as u8) && l[3] == (
        'n' as u8) {
            Some(Keyword::Down)
        } else if l[0] == ('l' as u8) && l[1] == ('e' as u8) && l[2] == ('f' as u8) && l[3] == (
        't' as u8) {
            Some(Keyword::Left)
        } else if l[0] == ('s' as u8) && l[1] == ('t' as u8) && l[2] == ('o' as u8) && l[3] == (
        'p' as u8) {
            Some(Keyword::Stop)
        } else if l[0] == ('e' as u8) && l[1] == ('x' as u8) && l[2] == ('e' as u8) && l[3] == (
        'c' as u8) {
            Some(Keyword::Exec)
        } else if l[0] == ('t' as u8) && l[1] == ('u' as u8) && l[2] == ('r' as u8) && l[3] == (
        'n' as u8) {
            Some(Keyword::Turn)
        } else if l[0] == ('f' as u8) && l[1] == ('o' as u8) && l[2] == ('u' as u8) && l[3] == (
        'r' as u8) {
            Some(Keyword::Four)
        } else if l[0] == ('f' as u8) && l[1] == ('i' as u8) && l[2] == ('v' as u8) && l[3] == (
        'e' as u8) {
            Some(Keyword::Five)
        } else if l[0] == ('n' as u8) && l[1] == ('i' as u8) && l[2] == ('n' as u8) && l[3] == (
        'e' as u8) {
            Some(Keyword::Nine)
        } else {
            None
        }
    } else if l.len() == 5 {
        if l[0] == ('r' as u8) && l[1] == ('i' as u8) && l[2] == ('g' as u8) && l[3] == ('h' as u8)
            && l[4] == ('t' as u8) {
            Some(Keyword::Right)
        } else if l[0] == ('t' as u8) && l[1] == ('o' as u8) && l[2] == ('u' as u8) && l[3] == (
        'c' as u8) && l[4] == ('h' as u8) {
            Some(Keyword::Touch)
        } else if l[0] == ('s' as u8) && l[1] == ('t' as u8) && l[2] == ('a' as u8) && l[3] == (
        'r' as u8) && l[4] == ('t' as u8) {
            Some(Keyword::Start)
        } else if l[0] == ('t' as u8) && l[1] == ('h' as u8) && l[2] == ('r' as u8) && l[3] == (
        'e' as u8) && l[4] == ('e' as u8) {
            Some(Keyword::Three)
        } else if l[0] == ('s' as u8) && l[1] == ('e' as u8) && l[2] == ('v' as u8) && l[3] == (
        'e' as u8) && l[4] == ('n' as u8) {
            Some(Keyword::Seven)
        } else if l[0] == ('e' as u8) && l[1] == ('i' as u8) && l[2] == ('g' as u8) && l[3] == (
        'h' as u8) && l[4] == ('t' as u8) {
            Some(Keyword::Eight)
        } else {
            None
        }
    } else if l.len() == 6 {
        if l[0] == ('b' as u8) && l[1] == ('o' as u8) && l[2] == ('t' as u8) && l[3] == ('t' as u8)
            && l[4] == ('o' as u8) && l[5] == ('m' as u8) {
            Some(Keyword::Bottom)
        } else if l[0] == ('e' as u8) && l[1] == ('n' as u8) && l[2] == ('a' as u8) && l[3] == (
        'b' as u8) && l[4] == ('l' as u8) && l[5] == ('e' as u8) {
            Some(Keyword::Enable)
        } else if l[0] == ('t' as u8) && l[1] == ('o' as u8) && l[2] == ('g' as u8) && l[3] == (
        'g' as u8) && l[4] == ('l' as u8) && l[5] == ('e' as u8) {
            Some(Keyword::Toggle)
        } else if l[0] == ('s' as u8) && l[1] == ('c' as u8) && l[2] == ('r' as u8) && l[3] == (
        'e' as u8) && l[4] == ('e' as u8) && l[5] == ('n' as u8) {
            Some(Keyword::Screen)
        } else if l[0] == ('f' as u8) && l[1] == ('i' as u8) && l[2] == ('n' as u8) && l[3] == (
        'g' as u8) && l[4] == ('e' as u8) && l[5] == ('r' as u8) {
            Some(Keyword::Finger)
        } else {
            None
        }
    } else if l.len() == 7 {
        if l[0] == ('f' as u8) && l[1] == ('i' as u8) && l[2] == ('n' as u8) && l[3] == ('g' as u8)
            && l[4] == ('e' as u8) && l[5] == ('r' as u8) && l[6] == ('s' as u8) {
            Some(Keyword::Fingers)
        } else if l[0] == ('t' as u8) && l[1] == ('o' as u8) && l[2] == ('u' as u8) && l[3] == (
        'c' as u8) && l[4] == ('h' as u8) && l[5] == ('e' as u8) && l[6] == ('s' as u8) {
            Some(Keyword::Touches)
        } else if l[0] == ('c' as u8) && l[1] == ('o' as u8) && l[2] == ('m' as u8) && l[3] == (
        'm' as u8) && l[4] == ('a' as u8) && l[5] == ('n' as u8) && l[6] == ('d' as u8) {
            Some(Keyword::Command)
        } else if l[0] == ('d' as u8) && l[1] == ('i' as u8) && l[2] == ('s' as u8) && l[3] == (
        'a' as u8) && l[4] == ('b' as u8) && l[5] == ('l' as u8) && l[6] == ('e' as u8) {
            Some(Keyword::Disable)
        } else if l[0] == ('e' as u8) && l[1] == ('x' as u8) && l[2] == ('e' as u8) && l[3] == (
        'c' as u8) && l[4] == ('u' as u8) && l[5] == ('t' as u8) && l[6] == ('e' as u8) {
            Some(Keyword::Execute)
        } else {
            None
        }
    } else {
        None
    }
}

/// What a bare word means: a count when it is all digits and fits, else the
/// keyword it spells, else nothing.
pub open spec fn spec_classify_word(w: Seq<u8>) -> TokenModel {
    if all_digits(w) {
        if digits_value(w) <= u32::MAX {
            TokenModel::Number(digits_value(w) as u32)
        } else {
            TokenModel::Other
        }
    } else {
        match spec_keyword(lower_seq(w)) {
            Some(k) => TokenModel::Key(k),
            None => TokenModel::Other,
        }
    }
}

/// How many bytes the word at the head of the input runs: up to the first
/// whitespace byte.
pub open spec fn word_len(s: Seq<u8>) -> int
    decreases s.len(),
{
    if s.len() == 0 || is_space(s[0]) {
        0
    } else {
        1 + word_len(s.drop_first())
    }
}

/// The first position of the byte, or -1 when it is absent.
pub open spec fn find_byte(s: Seq<u8>, b: u8) -> int
    decreases s.len(),
{
    if s.len() == 0 {
        -1
    } else if s[0] == b {
        0
    } else {
        let r = find_byte(s.drop_first(), b);
        if r < 0 {
            -1
        } else {
            1 + r
        }
    }
}

pub proof fn lemma_word_len_bounds(s: Seq<u8>)
    ensures
        0 <= word_len(s) <= s.len(),
        s.len() > 0 && !is_space(s[0]) ==> word_len(s) >= 1,
    decreases s.len(),
{
    if s.len() > 0 && !is_space(s[0]) {
        lemma_word_len_bounds(s.drop_first());
    }
}

pub proof fn lemma_find_byte_bounds(s: Seq<u8>, b: u8)
    ensures
        -1 <= find_byte(s, b) < s.len(),
        find_byte(s, b) >= 0 ==> s[find_byte(s, b)] == b,
    decreases s.len(),
{
    if s.len() > 0 && s[0] != b {
        lemma_find_byte_bounds(s.drop_first(), b);
    }
}

pub proof fn lemma_find_byte_first(s: Seq<u8>, b: u8, k: int)
    requires
        0 <= k < s.len(),
        s[k] == b,
        forall|j: int| 0 <= j < k ==> s[j] != b,
    ensures
        find_byte(s, b) == k,
    decreases k,
{
    if k > 0 {
        assert(forall|j: int| 0 <= j < k - 1 ==> s.drop_first()[j] == s[j + 1]);
        lemma_find_byte_first(s.drop_first(), b, k - 1);
    }
}

pub proof fn lemma_find_byte_none(s: Seq<u8>, b: u8)
    requires
        forall|j: int| 0 <= j < s.len() ==> s[j] != b,
    ensures
        find_byte(s, b) == -1,
    decreases s.len(),
{
    if s.len() > 0 {
        lemma_find_byte_none(s.drop_first(), b);
    }
}

pub proof fn lemma_word_len_first(s: Seq<u8>, k: int)
    requires
        0 <= k <= s.len(),
        forall|j: int| 0 <= j < k ==> !is_space(s[j]),
        k == s.len() || is_space(s[k]),
    ensures
        word_len(s) == k,
    decreases k,
{
    if k > 0 {
        assert(forall|j: int| 0 <= j < k - 1 ==> s.drop_first()[j] == s[j + 1]);
        lemma_word_len_first(s.drop_first(), k - 1);
    }
}

/// The token list a descriptor string splits into: whitespace separates
/// tokens; a token beginning with a quote runs to the matching quote, must be
/// non-empty, and must be followed by whitespace or the end; any other token
/// is a word, classified by `spec_classify_word`.
pub open spec fn spec_tokenize(s: Seq<u8>) -> Option<Seq<TokenModel>>
    decreases s.len(),
    via spec_tokenize_decreases
{
    if s.len() == 0 {
        Some(Seq::empty())
    } else if is_space(s[0]) {
        spec_tokenize(s.drop_first())
    } else if is_quote(s[0]) {
        let rest = s.drop_first();
        let close = find_byte(rest, s[0]);
        if close <= 0 {
            None
        } else {
            let content = rest.take(close);
            let after = rest.skip(close + 1);
            if after.len() > 0 && !is_space(after[0]) {
                None
            } else {
                match spec_tokenize(after) {
                    None => None,
                    Some(ts) => Some(seq![TokenModel::Quoted(content)] + ts),
                }
            }
        }
    } else {
        let w = word_len(s);
        match spec_tokenize(s.skip(w)) {
            None => None,
            Some(ts) => Some(seq![spec_classify_word(s.take(w))] + ts),
        }
    }
}

#[via_fn]
proof fn spec_tokenize_decreases(s: Seq<u8>) {
    if s.len() > 0 && !is_space(s[0]) {
        if is_quote(s[0]) {
            lemma_find_byte_bounds(s.drop_first(), s[0]);
        } else {
            lemma_word_len_bounds(s);
        }
    }
}

/// Each prefix of a digit string spells no more than the whole.
pub proof fn lemma_digits_value_prefix(w: Seq<u8>, k: int)
    requires
        0 <= k <= w.len(),
        forall|i: int| 0 <= i < w.len() ==> is_digit(w[i]),
    ensures
        0 <= digits_value(w.take(k)) <= digits_value(w),
    decreases w.len(),
{
    if w.len() == 0 {
        assert(w.take(k) =~= w);
    } else if k == w.len() {
        assert(w.take(k) =~= w);
        lemma_digits_value_prefix(w.drop_last(), w.len() - 1);
        assert(w.drop_last().take(w.len() - 1) =~= w.drop_last());
    } else {
        assert(forall|i: int| 0 <= i < w.drop_last().len() ==> is_digit(w.drop_last()[i]));
        assert(w.drop_last().take(k) =~= w.take(k));
        lemma_digits_value_prefix(w.drop_last(), k);
    }
}

fn lower_bytes(w: &Vec<u8>) -> (r: Vec<u8>)
    ensures
        r@ == lower_seq(w@),
{
    let n = w.len();
    let mut r: Vec<u8> = Vec::new();
    let mut i: usize = 0;
    while i < n
        invariant
            n == w@.len(),
            i <= n,
            r@ =~= lower_seq(w@).take(i as int),
        decreases n - i,
    {
        let b = w[i];
        let lb: u8 = if 65 <= b && b <= 90 {
            b + 32
        } else {
            b
        };
        r.push(lb);
        proof {
            assert(lower_seq(w@).take(i as int + 1) =~= lower_seq(w@).take(i as int).push(
                to_lower(w@[i as int]),
            ));
        }
        i += 1;
    }
    proof {
        assert(lower_seq(w@).take(n as int) =~= lower_seq(w@));
    }
    r
}

/// The keyword an already-lowered word spells, if any.
fn keyword_of(l: &Vec<u8>) -> (r: Option<Keyword>)
    ensures
        r == spec_keyword(l@),
{
    let n = l.len();
    if n == 2 {
        if l[0] == 116 && l[1] == 111 {
            Some(Keyword::To)
        } else if l[0] == 117 && l[1] == 112 {
            Some(Keyword::Up)
        } else if l[0] == 111 && l[1] == 110 {
            Some(Keyword::On)
        } else {
            None
        }
    } else if n == 3 {
        if l[0] == 114 && l[1] == 117 && l[2] == 110 {
            Some(Keyword::Run)
        } else if l[0] == 99 && l[1] == 109 && l[2] == 100 {
            Some(Keyword::Cmd)
        } else if l[0] == 111 && l[1] == 102 && l[2] == 102 {
            Some(Keyword::Off)
        } else if l[0] == 116 && l[1] == 111 && l[2] == 112 {
            Some(Keyword::Top)
        } else if l[0] == 111 && l[1] == 110 && l[2] == 101 {
            Some(Keyword::One)
        } else if l[0] == 116 && l[1] == 119 && l[2] == 111 {
            Some(Keyword::Two)
        } else if l[0] == 115 && l[1] == 105 && l[2] == 120 {
            Some(Keyword::Six)
        } else if l[0] == 116 && l[1] == 101 && l[2] == 110 {
            Some(Keyword::Ten)
        } else {
            None
        }
    } else if n == 4 {
        if l[0] == 102 && l[1] == 114 && l[2] == 111 && l[3] == 109 {
            Some(Keyword::From)
        } else if l[0] == 119 && l[1] == 105 && l[2] == 116 && l[3] == 104 {
            Some(Keyword::With)
        } else if l[0] == 100 && l[1] == 111 && l[2] == 119 && l[3] == 110 {
            Some(Keyword::Down)
        } else if l[0] == 108 && l[1] == 101 && l[2] == 102 && l[3] == 116 {
            Some(Keyword::Left)
        } else if l[0] == 115 && l[1] == 116 && l[2] == 111 && l[3] == 112 {
            Some(Keyword::Stop)
        } else if l[0] == 101 && l[1] == 120 && l[2] == 101 && l[3] == 99 {
            Some(Keyword::Exec)
        } else if l[0] == 116 && l[1] == 117 && l[2] == 114 && l[3] == 110 {
            Some(Keyword::Turn)
        } else if l[0] == 102 && l[1] == 111 && l[2] == 117 && l[3] == 114 {
            Some(Keyword::Four)
        } else if l[0] == 102 && l[1] == 105 && l[2] == 118 && l[3] == 101 {
            Some(Keyword::Five)
        } else if l[0] == 110 && l[1] == 105 && l[2] == 110 && l[3] == 101 {
            Some(Keyword::Nine)
        } else {
            None
        }
    } else if n == 5 {
        if l[0] == 114 && l[1] == 105 && l[2] == 103 && l[3] == 104 && l[4] == 116 {
            Some(Keyword::Right)
        } else if l[0] == 116 && l[1] == 111 && l[2] == 117 && l[3] == 99 && l[4] == 104 {
            Some(Keyword::Touch)
        } else if l[0] == 115 && l[1] == 116 && l[2] == 97 && l[3] == 114 && l[4] == 116 {
            Some(Keyword::Start)
        } else if l[0] == 116 && l[1] == 104 && l[2] == 114 && l[3] == 101 && l[4] == 101 {
            Some(Keyword::Three)
        } else if l[0] == 115 && l[1] == 101 && l[2] == 118 && l[3] == 101 && l[4] == 110 {
            Some(Keyword::Seven)
        } else if l[0] == 101 && l[1] == 105 && l[2] == 103 && l[3] == 104 && l[4] == 116 {
            Some(Keyword::Eight)
        } else {
            None
        }
    } else if n == 6 {
        if l[0] == 98 && l[1] == 111 && l[2] == 116 && l[3] == 116 && l[4] == 111 && l[5] == 109 {
            Some(Keyword::Bottom)
        } else if l[0] == 101 && l[1] == 110 && l[2] == 97 && l[3] == 98 && l[4] == 108 && l[5]
            == 101 {
            Some(Keyword::Enable)
        } else if l[0] == 116 && l[1] == 111 && l[2] == 103 && l[3] == 103 && l[4] == 108 && l[5]
            == 101 {
            Some(Keyword::Toggle)
        } else if l[0] == 115 && l[1] == 99 && l[2] == 114 && l[3] == 101 && l[4] == 101 && l[5]
            == 110 {
            Some(Keyword::Screen)
        } else if l[0] == 102 && l[1] == 105 && l[2] == 110 && l[3] == 103 && l[4] == 101 && l[5]
            == 114 {
            Some(Keyword::Finger)
        } else {
            None
        }
    } else if n == 7 {
        if l[0] == 102 && l[1] == 105 && l[2] == 110 && l[3] == 103 && l[4] == 101 && l[5] == 114
            && l[6] == 115 {
            Some(Keyword::Fingers)
        } else if l[0] == 116 && l[1] == 111 && l[2] == 117 && l[3] == 99 && l[4] == 104 && l[5]
            == 101 && l[6] == 115 {
            Some(Keyword::Touches)
        } else if l[0] == 99 && l[1] == 111 && l[2] == 109 && l[3] == 109 && l[4] == 97 && l[5]
            == 110 && l[6] == 100 {
            Some(Keyword::Command)
        } else if l[0] == 100 && l[1] == 105 && l[2] == 115 && l[3] == 97 && l[4] == 98 && l[5]
            == 108 && l[6] == 101 {
            Some(Keyword::Disable)
        } else if l[0] == 101 && l[1] == 120 && l[2] == 101 && l[3] == 99 && l[4] == 117 && l[5]
            == 116 && l[6] == 101 {
            Some(Keyword::Execute)
        } else {
            None
        }
    } else {
        None
    }
}

/// Classify one word: a decimal count, a keyword, or an unknown word.
fn classify_word(w: &Vec<u8>) -> (t: Token)
    ensures
        t@ == spec_classify_word(w@),
{
    let n = w.len();
    let mut all_dig = n > 0;
    let mut i: usize = 0;
    while i < n
        invariant
            n == w@.len(),
            i <= n,
            all_dig == (n > 0 && forall|j: int| 0 <= j < i ==> is_digit(w@[j])),
        decreases n - i,
    {
        if w[i] < 48 || w[i] > 57 {
            all_dig = false;
        }
        i += 1;
    }
    if all_dig {
        let mut acc: u64 = 0;
        let mut k: usize = 0;
        while k < n
            invariant
                n == w@.len(),
                all_digits(w@),
                k <= n,
                acc as int == digits_value(w@.take(k as int)),
                acc <= u32::MAX as u64,
            decreases n - k,
        {
            proof {
                assert(w@.take(k as int + 1).drop_last() =~= w@.take(k as int));
                assert(w@.take(k as int + 1).last() == w@[k as int]);
            }
            let d = w[k] - 48;
            acc = acc * 10 + d as u64;
            if acc > u32::MAX as u64 {
                proof {
                    lemma_digits_value_prefix(w@, k as int + 1);
                }
                return Token::Other;
            }
            k += 1;
        }
        proof {
            assert(w@.take(n as int) =~= w@);
        }
        Token::Number(acc as u32)
    } else {
        let lw = lower_bytes(w);
        match keyword_of(&lw) {
            Some(k) => Token::Key(k),
            None => Token::Other,
        }
    }
}

/// The bytes of the input between the two positions, as an owned vector.
fn copy_range(input: &[u8], from: usize, to: usize) -> (r: Vec<u8>)
    requires
        from <= to <= input@.len(),
    ensures
        r@ == input@.subrange(from as int, to as int),
{
    let mut r: Vec<u8> = Vec::new();
    let mut i: usize = from;
    while i < to
        invariant
            from <= i <= to <= input@.len(),
            r@ =~= input@.subrange(from as int, i as int),
        decreases to - i,
    {
        r.push(input[i]);
        proof {
            assert(input@.subrange(from as int, i as int + 1) =~= input@.subrange(
                from as int,
                i as int,
            ).push(input@[i as int]));
        }
        i += 1;
    }
    r
}

/// Split a descriptor into its tokens, or nothing when a quoted string is
/// unterminated, empty, or not delimited by whitespace.
pub fn tokenize(input: &[u8]) -> (r: Option<Vec<Token>>)
    ensures
        match r {
            Some(toks) => spec_tokenize(input@) == Some(toks_view(toks@)),
            None => spec_tokenize(input@) is None,
        },
{
    let n = input.len();
    let mut out: Vec<Token> = Vec::new();
    let mut pos: usize = 0;
    proof {
        assert(input@.skip(0) =~= input@);
        assert(toks_view(out@) =~= Seq::<TokenModel>::empty());
        if spec_tokenize(input@) is Some {
            assert(toks_view(out@) + spec_tokenize(input@).unwrap() =~= spec_tokenize(
                input@,
            ).unwrap());
        }
    }
    while pos < n
        invariant
            n == input@.len(),
            pos <= n,
            spec_tokenize(input@) == (match spec_tokenize(input@.skip(pos as int)) {
                None => None::<Seq<TokenModel>>,
                Some(ts) => Some(toks_view(out@) + ts),
            }),
        decreases n - pos,
    {
        let ghost tail = input@.skip(pos as int);
        proof {
            assert(tail[0] == input@[pos as int]);
        }
        let b = input[pos];
        if b == 32 || b == 9 || b == 10 || b == 13 {
            proof {
                assert(tail.drop_first() =~= input@.skip(pos as int + 1));
            }
            pos += 1;
        } else if b == 34 || b == 39 {
            let ghost rest = tail.drop_first();
            proof {
                assert(rest =~= input@.skip(pos as int + 1));
            }
            let mut j: usize = pos + 1;
            while j < n && input[j] != b
                invariant
                    n == input@.len(),
                    pos + 1 <= j <= n,
                    b == input@[pos as int],
                    forall|l: int| pos + 1 <= l < j ==> input@[l] != b,
                decreases n - j,
            {
                j += 1;
            }
            if j == n {
                proof {
                    assert(forall|l: int|
                        0 <= l < rest.len() ==> rest[l] == input@[pos as int + 1 + l]);
                    lemma_find_byte_none(rest, b);
                }
                return None;
            }
            proof {
                assert(forall|l: int|
                    0 <= l < rest.len() ==> rest[l] == input@[pos as int + 1 + l]);
                lemma_find_byte_first(rest, b, j as int - (pos as int + 1));
            }
            if j == pos + 1 {
                return None;
            }
            if j + 1 < n {
                let after_b = input[j + 1];
                if !(after_b == 32 || after_b == 9 || after_b == 10 || after_b == 13) {
                    proof {
                        let close = find_byte(rest, b);
                        assert(rest.skip(close + 1) =~= input@.skip(j as int + 1));
                    }
                    return None;
                }
            }
            let content = copy_range(input, pos + 1, j);
            out.push(Token::Quoted(content));
            proof {
                let close = find_byte(rest, b);
                assert(rest.take(close) =~= input@.subrange(pos as int + 1, j as int));
                assert(rest.skip(close + 1) =~= input@.skip(j as int + 1));
                assert(toks_view(out@) =~= toks_view(out@.drop_last()) + seq![
                    TokenModel::Quoted(input@.subrange(pos as int + 1, j as int)),
                ]);
                if spec_tokenize(input@.skip(j as int + 1)) is Some {
                    let ts = spec_tokenize(input@.skip(j as int + 1)).unwrap();
                    assert(toks_view(out@.drop_last()) + (seq![
                        TokenModel::Quoted(input@.subrange(pos as int + 1, j as int)),
                    ] + ts) =~= toks_view(out@) + ts);
                }
            }
            pos = j + 1;
        } else {
            let mut j: usize = pos;
            while j < n && !(input[j] == 32 || input[j] == 9 || input[j] == 10 || input[j] == 13)
                invariant
                    n == input@.len(),
                    pos <= j <= n,
                    forall|l: int| pos <= l < j ==> !is_space(input@[l]),
                decreases n - j,
            {
                j += 1;
            }
            proof {
                assert(forall|l: int|
                    0 <= l < tail.len() ==> tail[l] == input@[pos as int + l]);
                lemma_word_len_first(tail, j as int - pos as int);
            }
            let word = copy_range(input, pos, j);
            let t = classify_word(&word);
            out.push(t);
            proof {
                let w = word_len(tail);
                assert(tail.take(w) =~= input@.subrange(pos as int, j as int));
                assert(tail.skip(w) =~= input@.skip(j as int));
                assert(toks_view(out@) =~= toks_view(out@.drop_last()) + seq![
                    spec_classify_word(input@.subrange(pos as int, j as int)),
                ]);
                if spec_tokenize(input@.skip(j as int)) is Some {
                    let ts = spec_tokenize(input@.skip(j as int)).unwrap();
                    assert(toks_view(out@.drop_last()) + (seq![
                        spec_classify_word(input@.subrange(pos as int, j as int)),
                    ] + ts) =~= toks_view(out@) + ts);
                }
            }
            pos = j;
        }
    }
    proof {
        assert(input@.skip(n as int) =~= Seq::<u8>::empty());
        assert(spec_tokenize(Seq::<u8>::empty()) == Some(Seq::<TokenModel>::empty()));
        assert(toks_view(out@) + Seq::<TokenModel>::empty() =~= toks_view(out@));
    }
    Some(out)
}

/// An edge name in an edge position: up and top both name the top border,
/// down and bottom the bottom one.
pub open spec fn spec_parse_side(t: Seq<TokenModel>, i: int) -> Option<(Side, int)> {
    if 0 <= i < t.len() {
        match t[i] {
            TokenModel::Key(Keyword::Top) => Some((Side::Top, i + 1)),
            TokenModel::Key(Keyword::Up) => Some((Side::Top, i + 1)),
            TokenModel::Key(Keyword::Right) => Some((Side::Right, i + 1)),
            TokenModel::Key(Keyword::Bottom) => Some((Side::Bottom, i + 1)),
            TokenModel::Key(Keyword::Down) => Some((Side::Bottom, i + 1)),
            TokenModel::Key(Keyword::Left) => Some((Side::Left, i + 1)),
            _ => None,
        }
    } else {
        None
    }
}

/// A direction name in a direction position, with the same synonym overlap.
pub open spec fn spec_parse_direction(t: Seq<TokenModel>, i: int) -> Option<(Direction, int)> {
    if 0 <= i < t.len() {
        match t[i] {
            TokenModel::Key(Keyword::Up) => Some((Direction::Up, i + 1)),
            TokenModel::Key(Keyword::Top) => Some((Direction::Up, i + 1)),
            TokenModel::Key(Keyword::Right) => Some((Direction::Right, i + 1)),
            TokenModel::Key(Keyword::Down) => Some((Direction::Down, i + 1)),
            TokenModel::Key(Keyword::Bottom) => Some((Direction::Down, i + 1)),
            TokenModel::Key(Keyword::Left) => Some((Direction::Left, i + 1)),
            _ => None,
        }
    } else {
        None
    }
}

pub open spec fn spec_parse_from_to_a(t: Seq<TokenModel>, i: int) -> Option<(
    (Side, Direction),
    int,
)> {
    let i1 = if 0 <= i < t.len() && t[i] == TokenModel::Key(Keyword::From) {
        i + 1
    } else {
        i
    };
    match spec_parse_side(t, i1) {
        Some((side, i2)) => {
            if i2 < t.len() && t[i2] == TokenModel::Key(Keyword::To) {
                match spec_parse_direction(t, i2 + 1) {
                    Some((direction, i3)) => Some(((side, direction), i3)),
                    None => None,
                }
            } else {
                None
            }
        },
        None => None,
    }
}

pub open spec fn spec_parse_from_to_b(t: Seq<TokenModel>, i: int) -> Option<(
    (Side, Direction),
    int,
)> {
    let i1 = if 0 <= i < t.len() && t[i] == TokenModel::Key(Keyword::To) {
        i + 1
    } else {
        i
    };
    match spec_parse_direction(t, i1) {
        Some((direction, i2)) => {
            if i2 < t.len() && t[i2] == TokenModel::Key(Keyword::From) {
                match spec_parse_side(t, i2 + 1) {
                    Some((side, i3)) => Some(((side, direction), i3)),
                    None => None,
                }
            } else {
                None
            }
        },
        None => None,
    }
}

/// `["from"] <edge> "to" <direction>`, or `["to"] <direction> "from" <edge>`.
pub open spec fn spec_parse_from_to(t: Seq<TokenModel>, i: int) -> Option<(
    (Side, Direction),
    int,
)> {
    match spec_parse_from_to_a(t, i) {
        Some(r) => Some(r),
        None => spec_parse_from_to_b(t, i),
    }
}

/// A count: a decimal number, or a number word one through ten.
pub open spec fn spec_parse_count(t: Seq<TokenModel>, i: int) -> Option<(u32, int)> {
    if 0 <= i < t.len() {
        match t[i] {
            TokenModel::Number(n) => Some((n, i + 1)),
            TokenModel::Key(Keyword::One) => Some((1u32, i + 1)),
            TokenModel::Key(Keyword::Two) => Some((2u32, i + 1)),
            TokenModel::Key(Keyword::Three) => Some((3u32, i + 1)),
            TokenModel::Key(Keyword::Four) => Some((4u32, i + 1)),
            TokenModel::Key(Keyword::Five) => Some((5u32, i + 1)),
            TokenModel::Key(Keyword::Six) => Some((6u32, i + 1)),
            TokenModel::Key(Keyword::Seven) => Some((7u32, i + 1)),
            TokenModel::Key(Keyword::Eight) => Some((8u32, i + 1)),
            TokenModel::Key(Keyword::Nine) => Some((9u32, i + 1)),
            TokenModel::Key(Keyword::Ten) => Some((10u32, i + 1)),
            _ => None,
        }
    } else {
        None
    }
}

pub open spec fn spec_parse_fingers_plural(t: Seq<TokenModel>, i: int) -> Option<(u32, int)> {
    match spec_parse_count(t, i) {
        Some((n, i1)) => {
            if i1 < t.len() && (t[i1] == TokenModel::Key(Keyword::Fingers) || t[i1]
                == TokenModel::Key(Keyword::Touches)) {
                Some((n, i1 + 1))
            } else {
                None
            }
        },
        None => None,
    }
}

pub open spec fn spec_parse_fingers_singular(t: Seq<TokenModel>, i: int) -> Option<(u32, int)> {
    if 0 <= i && i + 1 < t.len() && (t[i] == TokenModel::Key(Keyword::One) || t[i]
        == TokenModel::Number(1u32)) && (t[i + 1] == TokenModel::Key(Keyword::Finger) || t[i + 1]
        == TokenModel::Key(Keyword::Touch)) {
        Some((1u32, i + 2))
    } else {
        None
    }
}

/// `<count> ("fingers"|"touches")`, or `("one"|"1") ("finger"|"touch")`.
pub open spec fn spec_parse_fingers(t: Seq<TokenModel>, i: int) -> Option<(u32, int)> {
    match spec_parse_fingers_plural(t, i) {
        Some(r) => Some(r),
        None => spec_parse_fingers_singular(t, i),
    }
}

pub open spec fn spec_parse_gesture_a(t: Seq<TokenModel>, i: int) -> Option<(
    (Side, Direction, u32),
    int,
)> {
    let i1 = if 0 <= i < t.len() && t[i] == TokenModel::Key(Keyword::With) {
        i + 1
    } else {
        i
    };
    match spec_parse_fingers(t, i1) {
        Some((n, i2)) => match spec_parse_from_to(t, i2) {
            Some(((side, direction), i3)) => Some(((side, direction, n), i3)),
            None => None,
        },
        None => None,
    }
}

pub open spec fn spec_parse_gesture_b(t: Seq<TokenModel>, i: int) -> Option<(
    (Side, Direction, u32),
    int,
)> {
    match spec_parse_from_to(t, i) {
        Some(((side, direction), i1)) => {
            let i2 = if i1 < t.len() && t[i1] == TokenModel::Key(Keyword::With) {
                i1 + 1
            } else {
                i1
            };
            match spec_parse_fingers(t, i2) {
                Some((n, i3)) => Some(((side, direction, n), i3)),
                None => None,
            }
        },
        None => None,
    }
}

/// The gesture clause: the finger clause and the from-to clause in either
/// order, the finger clause optionally preceded by "with".
pub open spec fn spec_parse_gesture(t: Seq<TokenModel>, i: int) -> Option<(
    (Side, Direction, u32),
    int,
)> {
    match spec_parse_gesture_a(t, i) {
        Some(r) => Some(r),
        None => spec_parse_gesture_b(t, i),
    }
}

/// `"touch" ["screen"]`.
pub open spec fn spec_parse_touchscreen(t: Seq<TokenModel>, i: int) -> Option<int> {
    if 0 <= i < t.len() && t[i] == TokenModel::Key(Keyword::Touch) {
        if i + 1 < t.len() && t[i + 1] == TokenModel::Key(Keyword::Screen) {
            Some(i + 2)
        } else {
            Some(i + 1)
        }
    } else {
        None
    }
}

pub open spec fn spec_parse_run(t: Seq<TokenModel>, i: int) -> Option<(EffectModel, int)> {
    if 0 <= i < t.len() && (t[i] == TokenModel::Key(Keyword::Run) || t[i] == TokenModel::Key(
        Keyword::Execute,
    ) || t[i] == TokenModel::Key(Keyword::Exec)) {
        let i1 = if i + 1 < t.len() && (t[i + 1] == TokenModel::Key(Keyword::Command) || t[i + 1]
            == TokenModel::Key(Keyword::Cmd)) {
            i + 2
        } else {
            i + 1
        };
        if i1 < t.len() {
            match t[i1] {
                TokenModel::Quoted(cmd) => Some((EffectModel::RunCommand(cmd), i1 + 1)),
                _ => None,
            }
        } else {
            None
        }
    } else {
        None
    }
}

pub open spec fn spec_parse_disable(t: Seq<TokenModel>, i: int) -> Option<(EffectModel, int)> {
    let head = if 0 <= i < t.len() && (t[i] == TokenModel::Key(Keyword::Disable) || t[i]
        == TokenModel::Key(Keyword::Stop)) {
        Some(i + 1)
    } else if 0 <= i && i + 1 < t.len() && t[i] == TokenModel::Key(Keyword::Turn) && t[i + 1]
        == TokenModel::Key(Keyword::Off) {
        Some(i + 2)
    } else {
        None
    };
    match head {
        Some(i1) => match spec_parse_touchscreen(t, i1) {
            Some(i2) => Some((EffectModel::PassthroughOn, i2)),
            None => None,
        },
        None => None,
    }
}

pub open spec fn spec_parse_enable(t: Seq<TokenModel>, i: int) -> Option<(EffectModel, int)> {
    let head = if 0 <= i < t.len() && (t[i] == TokenModel::Key(Keyword::Enable) || t[i]
        == TokenModel::Key(Keyword::Start)) {
        Some(i + 1)
    } else if 0 <= i && i + 1 < t.len() && t[i] == TokenModel::Key(Keyword::Turn) && t[i + 1]
        == TokenModel::Key(Keyword::On) {
        Some(i + 2)
    } else {
        None
    };
    match head {
        Some(i1) => match spec_parse_touchscreen(t, i1) {
            Some(i2) => Some((EffectModel::PassthroughOff, i2)),
            None => None,
        },
        None => None,
    }
}

pub open spec fn spec_parse_toggle(t: Seq<TokenModel>, i: int) -> Option<(EffectModel, int)> {
    if 0 <= i < t.len() && t[i] == TokenModel::Key(Keyword::Toggle) {
        match spec_parse_touchscreen(t, i + 1) {
            Some(i2) => Some((EffectModel::PassthroughToggle, i2)),
            None => None,
        }
    } else {
        None
    }
}

/// The effect clause: run a quoted command, or disable, enable or toggle the
/// touch screen (passthrough mode).
pub open spec fn spec_parse_effect(t: Seq<TokenModel>, i: int) -> Option<(EffectModel, int)> {
    match spec_parse_run(t, i) {
        Some(r) => Some(r),
        None => match spec_parse_disable(t, i) {
            Some(r) => Some(r),
            None => match spec_parse_enable(t, i) {
                Some(r) => Some(r),
                None => spec_parse_toggle(t, i),
            },
        },
    }
}

pub open spec fn spec_parse_action_a(t: Seq<TokenModel>) -> Option<ActionModel> {
    match spec_parse_effect(t, 0) {
        Some((effect, i1)) => match spec_parse_gesture(t, i1) {
            Some(((side, direction, num_fingers), i2)) => {
                if i2 == t.len() {
                    Some(ActionModel { side, direction, num_fingers, effect })
                } else {
                    None
                }
            },
            None => None,
        },
        None => None,
    }
}

pub open spec fn spec_parse_action_b(t: Seq<TokenModel>) -> Option<ActionModel> {
    match spec_parse_gesture(t, 0) {
        Some(((side, direction, num_fingers), i1)) => match spec_parse_effect(t, i1) {
            Some((effect, i2)) => {
                if i2 == t.len() {
                    Some(ActionModel { side, direction, num_fingers, effect })
                } else {
                    None
                }
            },
            None => None,
        },
        None => None,
    }
}

/// A whole descriptor's token list: one effect clause and one gesture clause
/// in either order, and nothing else.
pub open spec fn spec_parse_action_tokens(t: Seq<TokenModel>) -> Option<ActionModel> {
    match spec_parse_action_a(t) {
        Some(a) => Some(a),
        None => spec_parse_action_b(t),
    }
}

/// What a descriptor string means, if anything.
pub open spec fn spec_parse_action(s: Seq<u8>) -> Option<ActionModel> {
    match spec_tokenize(s) {
        None => None,
        Some(t) => spec_parse_action_tokens(t),
    }
}

fn is_key(t: &Token, k: Keyword) -> (r: bool)
    ensures
        r == (t@ == TokenModel::Key(k)),
{
    match t {
        Token::Key(k2) => *k2 == k,
        _ => false,
    }
}

fn is_num(t: &Token, n: u32) -> (r: bool)
    ensures
        r == (t@ == TokenModel::Number(n)),
{
    match t {
        Token::Number(m) => *m == n,
        _ => false,
    }
}

fn copy_bytes(v: &Vec<u8>) -> (r: Vec<u8>)
    ensures
        r@ == v@,
{
    let n = v.len();
    let mut r: Vec<u8> = Vec::new();
    let mut i: usize = 0;
    while i < n
        invariant
            n == v@.len(),
            i <= n,
            r@ =~= v@.take(i as int),
        decreases n - i,
    {
        r.push(v[i]);
        proof {
            assert(v@.take(i as int + 1) =~= v@.take(i as int).push(v@[i as int]));
        }
        i += 1;
    }
    proof {
        assert(v@.take(n as int) =~= v@);
    }
    r
}

fn parse_side(toks: &Vec<Token>, i: usize) -> (r: Option<(Side, usize)>)
    requires
        i <= toks@.len(),
    ensures
        match r {
            Some((side, j)) => spec_parse_side(toks_view(toks@), i as int) == Some(
                (side, j as int),
            ) && i < j <= toks@.len(),
            None => spec_parse_side(toks_view(toks@), i as int) is None,
        },
{
    if i < toks.len() {
        proof {
            assert(toks_view(toks@)[i as int] == toks@[i as int]@);
        }
        match &toks[i] {
            Token::Key(Keyword::Top) => Some((Side::Top, i + 1)),
            Token::Key(Keyword::Up) => Some((Side::Top, i + 1)),
            Token::Key(Keyword::Right) => Some((Side::Right, i + 1)),
            Token::Key(Keyword::Bottom) => Some((Side::Bottom, i + 1)),
            Token::Key(Keyword::Down) => Some((Side::Bottom, i + 1)),
            Token::Key(Keyword::Left) => Some((Side::Left, i + 1)),
            _ => None,
        }
    } else {
        None
    }
}

fn parse_direction(toks: &Vec<Token>, i: usize) -> (r: Option<(Direction, usize)>)
    requires
        i <= toks@.len(),
    ensures
        match r {
            Some((direction, j)) => spec_parse_direction(toks_view(toks@), i as int) == Some(
                (direction, j as int),
            ) && i < j <= toks@.len(),
            None => spec_parse_direction(toks_view(toks@), i as int) is None,
        },
{
    if i < toks.len() {
        proof {
            assert(toks_view(toks@)[i as int] == toks@[i as int]@);
        }
        match &toks[i] {
            Token::Key(Keyword::Up) => Some((Direction::Up, i + 1)),
            Token::Key(Keyword::Top) => Some((Direction::Up, i + 1)),
            Token::Key(Keyword::Right) => Some((Direction::Right, i + 1)),
            Token::Key(Keyword::Down) => Some((Direction::Down, i + 1)),
            Token::Key(Keyword::Bottom) => Some((Direction::Down, i + 1)),
            Token::Key(Keyword::Left) => Some((Direction::Left, i + 1)),
            _ => None,
        }
    } else {
        None
    }
}

fn parse_from_to(toks: &Vec<Token>, i: usize) -> (r: Option<((Side, Direction), usize)>)
    requires
        i <= toks@.len(),
    ensures
        match r {
            Some(((side, direction), j)) => spec_parse_from_to(toks_view(toks@), i as int)
                == Some((((side, direction)), j as int)) && i <= j <= toks@.len(),
            None => spec_parse_from_to(toks_view(toks@), i as int) is None,
        },
{
    let n = toks.len();
    proof {
        if i < n {
            assert(toks_view(toks@)[i as int] == toks@[i as int]@);
        }
    }
    // `["from"] <edge> "to" <direction>`
    let a: Option<((Side, Direction), usize)> = {
        let i1 = if i < n && is_key(&toks[i], Keyword::From) {
            i + 1
        } else {
            i
        };
        match parse_side(toks, i1) {
            Some((side, i2)) => {
                proof {
                    if i2 < n {
                        assert(toks_view(toks@)[i2 as int] == toks@[i2 as int]@);
                    }
                }
                if i2 < n && is_key(&toks[i2], Keyword::To) {
                    match parse_direction(toks, i2 + 1) {
                        Some((direction, i3)) => Some(((side, direction), i3)),
                        None => None,
                    }
                } else {
                    None
                }
            },
            None => None,
        }
    };
    if a.is_some() {
        return a;
    }
    // `["to"] <direction> "from" <edge>`
    let i1 = if i < n && is_key(&toks[i], Keyword::To) {
        i + 1
    } else {
        i
    };
    match parse_direction(toks, i1) {
        Some((direction, i2)) => {
            proof {
                if i2 < n {
                    assert(toks_view(toks@)[i2 as int] == toks@[i2 as int]@);
                }
            }
            if i2 < n && is_key(&toks[i2], Keyword::From) {
                match parse_side(toks, i2 + 1) {
                    Some((side, i3)) => Some(((side, direction), i3)),
                    None => None,
                }
            } else {
                None
            }
        },
        None => None,
    }
}

fn parse_count(toks: &Vec<Token>, i: usize) -> (r: Option<(u32, usize)>)
    requires
        i <= toks@.len(),
    ensures
        match r {
            Some((count, j)) => spec_parse_count(toks_view(toks@), i as int) == Some(
                (count, j as int),
            ) && i < j <= toks@.len(),
            None => spec_parse_count(toks_view(toks@), i as int) is None,
        },
{
    if i < toks.len() {
        proof {
            assert(toks_view(toks@)[i as int] == toks@[i as int]@);
        }
        match &toks[i] {
            Token::Number(count) => Some((*count, i + 1)),
            Token::Key(Keyword::One) => Some((1, i + 1)),
            Token::Key(Keyword::Two) => Some((2, i + 1)),
            Token::Key(Keyword::Three) => Some((3, i + 1)),
            Token::Key(Keyword::Four) => Some((4, i + 1)),
            Token::Key(Keyword::Five) => Some((5, i + 1)),
            Token::Key(Keyword::Six) => Some((6, i + 1)),
            Token::Key(Keyword::Seven) => Some((7, i + 1)),
            Token::Key(Keyword::Eight) => Some((8, i + 1)),
            Token::Key(Keyword::Nine) => Some((9, i + 1)),
            Token::Key(Keyword::Ten) => Some((10, i + 1)),
            _ => None,
        }
    } else {
        None
    }
}

fn parse_fingers(toks: &Vec<Token>, i: usize) -> (r: Option<(u32, usize)>)
    requires
        i <= toks@.len(),
    ensures
        match r {
            Some((count, j)) => spec_parse_fingers(toks_view(toks@), i as int) == Some(
                (count, j as int),
            ) && i < j <= toks@.len(),
            None => spec_parse_fingers(toks_view(toks@), i as int) is None,
        },
{
    let n = toks.len();
    // `<count> ("fingers"|"touches")`
    match parse_count(toks, i) {
        Some((count, i1)) => {
            proof {
                if i1 < n {
                    assert(toks_view(toks@)[i1 as int] == toks@[i1 as int]@);
                }
            }
            if i1 < n && (is_key(&toks[i1], Keyword::Fingers) || is_key(
                &toks[i1],
                Keyword::Touches,
            )) {
                return Some((count, i1 + 1));
            }
        },
        None => {},
    }
    // `("one"|"1") ("finger"|"touch")`
    proof {
        if i < n {
            assert(toks_view(toks@)[i as int] == toks@[i as int]@);
        }
        if i + 1 < n {
            assert(toks_view(toks@)[i as int + 1] == toks@[i as int + 1]@);
        }
    }
    if i < n && i + 1 < n && (is_key(&toks[i], Keyword::One) || is_num(&toks[i], 1)) && (is_key(
        &toks[i + 1],
        Keyword::Finger,
    ) || is_key(&toks[i + 1], Keyword::Touch)) {
        Some((1, i + 2))
    } else {
        None
    }
}

fn parse_gesture(toks: &Vec<Token>, i: usize) -> (r: Option<((Side, Direction, u32), usize)>)
    requires
        i <= toks@.len(),
    ensures
        match r {
            Some(((side, direction, count), j)) => spec_parse_gesture(toks_view(toks@), i as int)
                == Some((((side, direction, count)), j as int)) && i <= j <= toks@.len(),
            None => spec_parse_gesture(toks_view(toks@), i as int) is None,
        },
{
    let n = toks.len();
    proof {
        if i < n {
            assert(toks_view(toks@)[i as int] == toks@[i as int]@);
        }
    }
    // finger clause first
    let a: Option<((Side, Direction, u32), usize)> = {
        let i1 = if i < n && is_key(&toks[i], Keyword::With) {
            i + 1
        } else {
            i
        };
        match parse_fingers(toks, i1) {
            Some((count, i2)) => match parse_from_to(toks, i2) {
                Some(((side, direction), i3)) => Some(((side, direction, count), i3)),
                None => None,
            },
            None => None,
        }
    };
    if a.is_some() {
        return a;
    }
    // from-to clause first
    match parse_from_to(toks, i) {
        Some(((side, direction), i1)) => {
            proof {
                if i1 < n {
                    assert(toks_view(toks@)[i1 as int] == toks@[i1 as int]@);
                }
            }
            let i2 = if i1 < n && is_key(&toks[i1], Keyword::With) {
                i1 + 1
            } else {
                i1
            };
            match parse_fingers(toks, i2) {
                Some((count, i3)) => Some(((side, direction, count), i3)),
                None => None,
            }
        },
        None => None,
    }
}

fn parse_touchscreen(toks: &Vec<Token>, i: usize) -> (r: Option<usize>)
    requires
        i <= toks@.len(),
    ensures
        match r {
            Some(j) => spec_parse_touchscreen(toks_view(toks@), i as int) == Some(j as int) && i
                < j <= toks@.len(),
            None => spec_parse_touchscreen(toks_view(toks@), i as int) is None,
        },
{
    let n = toks.len();
    proof {
        if i < n {
            assert(toks_view(toks@)[i as int] == toks@[i as int]@);
        }
        if i + 1 < n {
            assert(toks_view(toks@)[i as int + 1] == toks@[i as int + 1]@);
        }
    }
    if i < n && is_key(&toks[i], Keyword::Touch) {
        if i + 1 < n && is_key(&toks[i + 1], Keyword::Screen) {
            Some(i + 2)
        } else {
            Some(i + 1)
        }
    } else {
        None
    }
}

fn parse_effect(toks: &Vec<Token>, i: usize) -> (r: Option<(Effect, usize)>)
    requires
        i <= toks@.len(),
    ensures
        match r {
            Some((effect, j)) => spec_parse_effect(toks_view(toks@), i as int) == Some(
                (effect@, j as int),
            ) && i < j <= toks@.len(),
            None => spec_parse_effect(toks_view(toks@), i as int) is None,
        },
{
    let n = toks.len();
    proof {
        if i < n {
            assert(toks_view(toks@)[i as int] == toks@[i as int]@);
        }
        if i + 1 < n {
            assert(toks_view(toks@)[i as int + 1] == toks@[i as int + 1]@);
        }
    }
    // `("run"|"execute"|"exec") [("command"|"cmd")] <quoted>`
    if i < n && (is_key(&toks[i], Keyword::Run) || is_key(&toks[i], Keyword::Execute) || is_key(
        &toks[i],
        Keyword::Exec,
    )) {
        let i1 = if i + 1 < n && (is_key(&toks[i + 1], Keyword::Command) || is_key(
            &toks[i + 1],
            Keyword::Cmd,
        )) {
            i + 2
        } else {
            i + 1
        };
        proof {
            if i1 < n {
                assert(toks_view(toks@)[i1 as int] == toks@[i1 as int]@);
            }
        }
        if i1 < n {
            return match &toks[i1] {
                Token::Quoted(cmd) => Some((Effect::RunCommand(copy_bytes(cmd)), i1 + 1)),
                _ => None,
            };
        }
        return None;
    }
    // `("disable"|"stop"|"turn off") "touch" ["screen"]`
    let head_on: Option<usize> = if i < n && (is_key(&toks[i], Keyword::Disable) || is_key(
        &toks[i],
        Keyword::Stop,
    )) {
        Some(i + 1)
    } else if i < n && i + 1 < n && is_key(&toks[i], Keyword::Turn) && is_key(
        &toks[i + 1],
        Keyword::Off,
    ) {
        Some(i + 2)
    } else {
        None
    };
    if let Some(i1) = head_on {
        return match parse_touchscreen(toks, i1) {
            Some(i2) => Some((Effect::PassthroughOn, i2)),
            None => None,
        };
    }
    // `("enable"|"start"|"turn on") "touch" ["screen"]`
    let head_off: Option<usize> = if i < n && (is_key(&toks[i], Keyword::Enable) || is_key(
        &toks[i],
        Keyword::Start,
    )) {
        Some(i + 1)
    } else if i < n && i + 1 < n && is_key(&toks[i], Keyword::Turn) && is_key(
        &toks[i + 1],
        Keyword::On,
    ) {
        Some(i + 2)
    } else {
        None
    };
    if let Some(i1) = head_off {
        return match parse_touchscreen(toks, i1) {
            Some(i2) => Some((Effect::PassthroughOff, i2)),
            None => None,
        };
    }
    // `"toggle" "touch" ["screen"]`
    if i < n && is_key(&toks[i], Keyword::Toggle) {
        return match parse_touchscreen(toks, i + 1) {
            Some(i2) => Some((Effect::PassthroughToggle, i2)),
            None => None,
        };
    }
    None
}

fn parse_action_tokens(toks: &Vec<Token>) -> (r: Option<Action>)
    ensures
        match r {
            Some(a) => spec_parse_action_tokens(toks_view(toks@)) == Some(a@),
            None => spec_parse_action_tokens(toks_view(toks@)) is None,
        },
{
    let n = toks.len();
    // effect clause first
    let a: Option<Action> = match parse_effect(toks, 0) {
        Some((effect, i1)) => match parse_gesture(toks, i1) {
            Some(((side, direction, num_fingers), i2)) => {
                if i2 == n {
                    Some(Action { side, direction, num_fingers, effect })
                } else {
                    None
                }
            },
            None => None,
        },
        None => None,
    };
    if a.is_some() {
        return a;
    }
    // gesture clause first
    match parse_gesture(toks, 0) {
        Some(((side, direction, num_fingers), i1)) => match parse_effect(toks, i1) {
            Some((effect, i2)) => {
                if i2 == n {
                    Some(Action { side, direction, num_fingers, effect })
                } else {
                    None
                }
            },
            None => None,
        },
        None => None,
    }
}

pub open spec fn actions_view(acts: Seq<Action>) -> Seq<ActionModel> {
    acts.map_values(|a: Action| a@)
}

pub open spec fn cmds_view(cmds: Seq<Vec<u8>>) -> Seq<Seq<u8>> {
    cmds.map_values(|c: Vec<u8>| c@)
}

/// Whether the action answers to this gesture signature: all three parts
/// equal, exactly.
pub open spec fn action_matches(
    a: ActionModel,
    side: Side,
    direction: Direction,
    num_touches: u32,
) -> bool {
    a.side == side && a.direction == direction && a.num_fingers == num_touches
}

/// The commands that a completed gesture spawns: those of every matching
/// run-command action, in declaration order.
pub open spec fn spec_gesture_commands(
    acts: Seq<ActionModel>,
    side: Side,
    direction: Direction,
    num_touches: u32,
) -> Seq<Seq<u8>>
    decreases acts.len(),
{
    if acts.len() == 0 {
        Seq::empty()
    } else {
        spec_gesture_commands(acts.drop_last(), side, direction, num_touches) + (
        if action_matches(acts.last(), side, direction, num_touches) {
            match acts.last().effect {
                EffectModel::RunCommand(cmd) => seq![cmd],
                _ => Seq::<Seq<u8>>::empty(),
            }
        } else {
            Seq::<Seq<u8>>::empty()
        })
    }
}

/// The passthrough flag after every matching passthrough effect has applied,
/// in declaration order, starting from `init`.
pub open spec fn spec_accept_all_after(
    acts: Seq<ActionModel>,
    side: Side,
    direction: Direction,
    num_touches: u32,
    init: bool,
) -> bool
    decreases acts.len(),
{
    if acts.len() == 0 {
        init
    } else {
        let prev = spec_accept_all_after(acts.drop_last(), side, direction, num_touches, init);
        if action_matches(acts.last(), side, direction, num_touches) {
            match acts.last().effect {
                EffectModel::RunCommand(_) => prev,
                EffectModel::PassthroughOn => true,
                EffectModel::PassthroughOff => false,
                EffectModel::PassthroughToggle => !prev,
            }
        } else {
            prev
        }
    }
}

impl GestureDetector {
    /// The action registry: scan the configured actions in declaration order
    /// and fire every one whose signature equals the completed gesture.
    /// Passthrough effects switch this detector's passthrough flag at once;
    /// the commands to spawn come back in order, for the caller to run.
    pub fn on_gesture(
        &mut self,
        actions: &Vec<Action>,
        side: Side,
        direction: Direction,
        num_touches: u32,
    ) -> (commands: Vec<Vec<u8>>)
        ensures
            final(self)@ == (DetectorModel {
                accept_all: spec_accept_all_after(
                    actions_view(actions@),
                    side,
                    direction,
                    num_touches,
                    old(self)@.accept_all,
                ),
                ..old(self)@
            }),
            cmds_view(commands@) == spec_gesture_commands(
                actions_view(actions@),
                side,
                direction,
                num_touches,
            ),
    {
        let ghost pre = self@;
        let ghost av = actions_view(actions@);
        let n = actions.len();
        let mut commands: Vec<Vec<u8>> = Vec::new();
        let mut i: usize = 0;
        proof {
            assert(av.take(0) =~= Seq::<ActionModel>::empty());
            assert(cmds_view(commands@) =~= Seq::<Seq<u8>>::empty());
            assert(self@ =~= (DetectorModel {
                accept_all: spec_accept_all_after(av.take(0), side, direction, num_touches,
                pre.accept_all),
                ..pre
            }));
        }
        while i < n
            invariant
                n == actions@.len(),
                av == actions_view(actions@),
                pre.config == self@.config,
                i <= n,
                self@ == (DetectorModel {
                    accept_all: spec_accept_all_after(
                        av.take(i as int),
                        side,
                        direction,
                        num_touches,
                        pre.accept_all,
                    ),
                    ..pre
                }),
                cmds_view(commands@) == spec_gesture_commands(
                    av.take(i as int),
                    side,
                    direction,
                    num_touches,
                ),
            decreases n - i,
        {
            let a = &actions[i];
            proof {
                assert(av[i as int] == actions@[i as int]@);
                assert(av.take(i as int + 1).drop_last() =~= av.take(i as int));
                assert(av.take(i as int + 1).last() == av[i as int]);
            }
            let ghost cmds_before = commands@;
            if a.side == side && a.direction == direction && a.num_fingers == num_touches {
                match &a.effect {
                    Effect::RunCommand(cmd) => {
                        commands.push(copy_bytes(cmd));
                        proof {
                            assert(cmds_view(commands@) =~= cmds_view(cmds_before).push(cmd@));
                        }
                    },
                    Effect::PassthroughOn => {
                        self.set_accept_all(true);
                    },
                    Effect::PassthroughOff => {
                        self.set_accept_all(false);
                    },
                    Effect::PassthroughToggle => {
                        let current = self.get_accept_all();
                        self.set_accept_all(!current);
                    },
                }
            }
            proof {
                assert(self@ =~= (DetectorModel {
                    accept_all: spec_accept_all_after(
                        av.take(i as int + 1),
                        side,
                        direction,
                        num_touches,
                        pre.accept_all,
                    ),
                    ..pre
                }));
                assert(cmds_view(commands@) =~= spec_gesture_commands(
                    av.take(i as int + 1),
                    side,
                    direction,
                    num_touches,
                ));
            }
            i += 1;
        }
        proof {
            assert(av.take(n as int) =~= av);
        }
        commands
    }
}

/// Parse one descriptor string into an action, or nothing when the string is
/// not exactly one gesture clause and one effect clause.
pub fn parse_action(description: &[u8]) -> (r: Option<Action>)
    ensures
        match r {
            Some(a) => spec_parse_action(description@) == Some(a@),
            None => spec_parse_action(description@) is None,
        },
{
    let toks = match tokenize(description) {
        Some(toks) => toks,
        None => {
            return None;
        },
    };
    parse_action_tokens(&toks)
}

} // verus!
