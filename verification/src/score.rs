//! The high scores: two lists of numbers, the best scores and the best line
//! counts, kept as two lines of plain text.

use vstd::prelude::*;

verus! {

/// How many entries each list keeps.
pub const NB_HIGHSCORES: usize = 5;

/// The byte that parts two numbers of a line.
pub const SPACE: u8 = 32;

/// The byte that ends a line.
pub const NEWLINE: u8 = 10;

/// The byte of the digit 0.
pub const ZERO: u8 = 48;

/// The byte of the plus sign.
pub const PLUS: u8 = 43;

/// The decimal digits of `n` as bytes, the most significant first.
pub open spec fn digits(n: nat) -> Seq<u8>
    decreases n,
{
    if n < 10 {
        seq![(ZERO + n) as u8]
    } else {
        digits(n / 10).push((ZERO + n % 10) as u8)
    }
}

/// The numbers of `values` in decimal, a space between each two.
pub open spec fn joined(values: Seq<u32>) -> Seq<u8>
    decreases values.len(),
{
    if values.len() == 0 {
        Seq::empty()
    } else {
        let head = joined(values.drop_last());
        (if values.len() > 1 {
            head.push(SPACE)
        } else {
            head
        }) + digits(values.last() as nat)
    }
}

/// The text that holds both lists: the scores on the first line, the line
/// counts on the second.
pub open spec fn saved(highscores: Seq<u32>, number_of_lines: Seq<u32>) -> Seq<u8> {
    joined(highscores).push(NEWLINE) + joined(number_of_lines).push(NEWLINE)
}

/// Appends the decimal digits of `n` to `out`.
pub fn push_decimal(out: &mut Vec<u8>, n: u32)
    ensures
        final(out)@ == old(out)@ + digits(n as nat),
    decreases n,
{
    if n >= 10 {
        push_decimal(out, n / 10);
    }
    out.push(ZERO + (n % 10) as u8);
    assert(out@ =~= old(out)@ + digits(n as nat));
}

/// The numbers of `slice` in decimal, a space between each two.
pub fn slice_to_string(slice: &[u32]) -> (text: Vec<u8>)
    ensures
        text@ == joined(slice@),
{
    let mut text: Vec<u8> = Vec::new();
    let n = slice.len();
    let mut i: usize = 0;
    while i < n
        invariant
            i <= n,
            n == slice@.len(),
            text@ == joined(slice@.subrange(0, i as int)),
        decreases n - i,
    {
        if i > 0 {
            text.push(SPACE);
        }
        push_decimal(&mut text, slice[i]);
        proof {
            assert(slice@.subrange(0, i + 1).drop_last() =~= slice@.subrange(0, i as int));
        }
        i += 1;
    }
    proof {
        assert(slice@.subrange(0, n as int) =~= slice@);
    }
    text
}

/// The text to store for the two lists: each on a line of its own, in
/// decimal, a space between each two numbers.
pub fn save_highscore_and_lines(highscores: &[u32], number_of_lines: &[u32]) -> (content: Vec<u8>)
    ensures
        content@ == saved(highscores@, number_of_lines@),
{
    let mut content = slice_to_string(highscores);
    content.push(NEWLINE);
    let mut s_number_of_lines = slice_to_string(number_of_lines);
    s_number_of_lines.push(NEWLINE);
    content.append(&mut s_number_of_lines);
    content
}

/// `b` is the byte of a decimal digit.
pub open spec fn is_digit(b: u8) -> bool {
    ZERO <= b <= ZERO + 9
}

/// Every byte of `s` is a decimal digit.
pub open spec fn all_digits(s: Seq<u8>) -> bool {
    forall|i: int| 0 <= i < s.len() ==> is_digit(#[trigger] s[i])
}

/// The number that the digits of `s` write in decimal.
pub open spec fn value(s: Seq<u8>) -> int
    decreases s.len(),
{
    if s.len() == 0 {
        0
    } else {
        value(s.drop_last()) * 10 + (s.last() - ZERO)
    }
}

/// `token` without the plus sign that may lead it.
pub open spec fn unsigned(token: Seq<u8>) -> Seq<u8> {
    if token.len() > 0 && token[0] == PLUS {
        token.subrange(1, token.len() as int)
    } else {
        token
    }
}

/// The number that `token` writes, if it writes one: an optional plus sign,
/// then one digit or more, and nothing else; the number must fit 32 bits.
pub open spec fn parsed(token: Seq<u8>) -> Option<u32> {
    let body = unsigned(token);
    if body.len() > 0 && all_digits(body) && value(body) <= u32::MAX {
        Some(value(body) as u32)
    } else {
        None
    }
}

/// `parsed` as a function value.
pub open spec fn parse_token() -> spec_fn(Seq<u8>) -> Option<u32> {
    |token: Seq<u8>| parsed(token)
}

/// The pieces of `s` between the bytes equal to `sep`, in order. There is
/// one piece more than there are such bytes; a piece may be empty.
pub open spec fn split(s: Seq<u8>, sep: u8) -> Seq<Seq<u8>>
    decreases s.len(),
{
    if s.len() == 0 {
        seq![Seq::empty()]
    } else {
        let head = split(s.drop_last(), sep);
        if s.last() == sep {
            head.push(Seq::empty())
        } else {
            head.drop_last().push(head.last().push(s.last()))
        }
    }
}

/// The numbers on `line`: of its pieces between spaces, those that write a
/// number, in order.
pub open spec fn numbers(line: Seq<u8>) -> Seq<u32> {
    split(line, SPACE).filter_map(parse_token())
}

/// `k` is the place of the first byte of `s` equal to `b`.
pub open spec fn is_first(s: Seq<u8>, b: u8, k: int) -> bool {
    &&& 0 <= k < s.len()
    &&& s[k] == b
    &&& forall|j: int| 0 <= j < k ==> s[j] != b
}

/// The first line of `s`: the text before its first line end, or all of it
/// where it has none.
pub open spec fn first_line(s: Seq<u8>) -> Seq<u8> {
    if exists|k: int| is_first(s, NEWLINE, k) {
        s.subrange(0, choose|k: int| is_first(s, NEWLINE, k))
    } else {
        s
    }
}

/// What follows the first line end of `s`.
pub open spec fn after_first_line(s: Seq<u8>) -> Seq<u8> {
    s.subrange((choose|k: int| is_first(s, NEWLINE, k)) + 1, s.len() as int)
}

/// The two lists that `content` holds: the numbers on its first line, and
/// the numbers on its second. Text without a line end holds none; what
/// follows the second line is not looked at.
pub open spec fn loaded(content: Seq<u8>) -> Option<(Seq<u32>, Seq<u32>)> {
    if exists|k: int| is_first(content, NEWLINE, k) {
        Some((numbers(first_line(content)), numbers(first_line(after_first_line(content)))))
    } else {
        None
    }
}

/// A line ends at `k` where `k` is the place of the first line end, or the
/// end of a text that has none.
pub proof fn lemma_first_line(s: Seq<u8>, k: int)
    requires
        0 <= k <= s.len(),
        forall|j: int| 0 <= j < k ==> s[j] != NEWLINE,
        k < s.len() ==> s[k] == NEWLINE,
    ensures
        first_line(s) == s.subrange(0, k),
        k < s.len() ==> is_first(s, NEWLINE, k) && after_first_line(s) == s.subrange(
            k + 1,
            s.len() as int,
        ),
        k == s.len() ==> !exists|j: int| is_first(s, NEWLINE, j),
{
    if k < s.len() {
        assert(is_first(s, NEWLINE, k));
        let found = choose|j: int| is_first(s, NEWLINE, j);
        if found < k {
            assert(s[found] != NEWLINE);
        }
        if found > k {
            assert(s[k] != NEWLINE);
        }
    } else {
        assert(s.subrange(0, k) =~= s);
        assert forall|j: int| !is_first(s, NEWLINE, j) by {
            if 0 <= j < s.len() {
                assert(s[j] != NEWLINE);
            }
        }
    }
}

/// A longer run of digits writes no smaller number.
pub proof fn lemma_value_prefix(s: Seq<u8>, k: int)
    requires
        all_digits(s),
        0 <= k <= s.len(),
    ensures
        0 <= value(s.subrange(0, k)) <= value(s),
    decreases s.len(),
{
    if k == s.len() {
        assert(s.subrange(0, k) =~= s);
        if k > 0 {
            lemma_value_prefix(s.drop_last(), k - 1);
            assert(is_digit(s[k - 1]));
        }
    } else {
        lemma_value_prefix(s.drop_last(), k);
        assert(s.drop_last().subrange(0, k) =~= s.subrange(0, k));
        assert(is_digit(s[s.len() - 1]));
    }
}

/// The number that `token` writes, if it writes one.
pub fn parse_number(token: &[u8]) -> (number: Option<u32>)
    ensures
        number == parsed(token@),
{
    let n = token.len();
    let mut k: usize = 0;
    if n > 0 && token[0] == PLUS {
        k = 1;
    }
    let ghost body = unsigned(token@);
    let first = k;
    assert(body =~= token@.subrange(first as int, n as int));
    if k == n {
        return None;
    }
    let mut v: u32 = 0;
    while k < n
        invariant
            first <= k <= n,
            n == token@.len(),
            body == token@.subrange(first as int, n as int),
            body == unsigned(token@),
            all_digits(body.subrange(0, k - first)),
            v == value(body.subrange(0, k - first)),
        decreases n - k,
    {
        let b = token[k];
        if b < ZERO || b > ZERO + 9 {
            assert(!is_digit(body[k - first]));
            return None;
        }
        let d = (b - ZERO) as u32;
        proof {
            assert(body.subrange(0, k - first + 1).drop_last() =~= body.subrange(0, k - first));
        }
        if v > (u32::MAX - d) / 10 {
            proof {
                assert(value(body.subrange(0, k - first + 1)) == v * 10 + d);
                if all_digits(body) {
                    lemma_value_prefix(body, k - first + 1);
                }
            }
            return None;
        }
        v = v * 10 + d;
        k += 1;
    }
    proof {
        assert(body.subrange(0, k - first) =~= body);
    }
    Some(v)
}

/// The numbers on `line`: its pieces between spaces that write a number.
pub fn line_to_slice(line: &[u8]) -> (values: Vec<u32>)
    ensures
        values@ == numbers(line@),
{
    let mut values: Vec<u32> = Vec::new();
    let n = line.len();
    let ghost done: Seq<Seq<u8>> = Seq::empty();
    let mut start: usize = 0;
    let mut i: usize = 0;
    proof {
        assert(line@.subrange(0, 0) =~= Seq::<u8>::empty());
        assert(split(line@.subrange(0, 0), SPACE) =~= done.push(line@.subrange(0, 0)));
    }
    while i < n
        invariant
            start <= i <= n,
            n == line@.len(),
            split(line@.subrange(0, i as int), SPACE) == done.push(
                line@.subrange(start as int, i as int),
            ),
            values@ == done.filter_map(parse_token()),
        decreases n - i,
    {
        proof {
            assert(line@.subrange(0, i + 1).drop_last() =~= line@.subrange(0, i as int));
        }
        if line[i] == SPACE {
            let token = vstd::slice::slice_subrange(line, start, i);
            let number = parse_number(token);
            proof {
                let next = done.push(token@);
                assert(next.drop_last() =~= done);
                assert(line@.subrange(i + 1, i + 1) =~= Seq::<u8>::empty());
                done = next;
            }
            if let Some(v) = number {
                values.push(v);
            }
            start = i + 1;
        } else {
            proof {
                let head = done.push(line@.subrange(start as int, i as int));
                assert(head.drop_last() =~= done);
                assert(line@.subrange(start as int, i as int).push(line@[i as int])
                    =~= line@.subrange(start as int, i + 1));
            }
        }
        i += 1;
    }
    let token = vstd::slice::slice_subrange(line, start, n);
    if let Some(v) = parse_number(token) {
        values.push(v);
    }
    proof {
        assert(line@.subrange(0, n as int) =~= line@);
        assert(done.push(token@).drop_last() =~= done);
    }
    values
}

/// The place at or after `from` where a line of `content` ends: that of the
/// next line end, or the end of the text.
pub fn line_end(content: &[u8], from: usize) -> (end: usize)
    requires
        from <= content@.len(),
    ensures
        from <= end <= content@.len(),
        forall|j: int| from <= j < end ==> content@[j] != NEWLINE,
        end < content@.len() ==> content@[end as int] == NEWLINE,
{
    let n = content.len();
    let mut end = from;
    while end < n && content[end] != NEWLINE
        invariant
            from <= end <= n,
            n == content@.len(),
            forall|j: int| from <= j < end ==> content@[j] != NEWLINE,
        decreases n - end,
    {
        end += 1;
    }
    end
}

/// Reads the two lists back from the text that holds them: the numbers on
/// the first line, and the numbers on the second. Text without a line end
/// gives nothing.
pub fn load_highscores_and_lines(content: &[u8]) -> (lists: Option<(Vec<u32>, Vec<u32>)>)
    ensures
        match lists {
            Some((highscores, number_of_lines)) => loaded(content@) == Some(
                (highscores@, number_of_lines@),
            ),
            None => loaded(content@) is None,
        },
{
    let n = content.len();
    let first = line_end(content, 0);
    proof {
        lemma_first_line(content@, first as int);
    }
    if first == n {
        return None;
    }
    let second = line_end(content, first + 1);
    proof {
        let rest = content@.subrange(first + 1, n as int);
        lemma_first_line(rest, second - first - 1);
        assert(rest.subrange(0, second - first - 1) =~= content@.subrange(
            first + 1,
            second as int,
        ));
    }
    let highscores = line_to_slice(vstd::slice::slice_subrange(content, 0, first));
    let number_of_lines = line_to_slice(vstd::slice::slice_subrange(content, first + 1, second));
    Some((highscores, number_of_lines))
}

/// The order of the lists: smaller numbers first.
pub open spec fn ascending() -> spec_fn(u32, u32) -> bool {
    |a: u32, b: u32| a <= b
}

/// `k` is the place of the first entry of `v` that `value` beats.
pub open spec fn is_first_below(v: Seq<u32>, value: u32, k: int) -> bool {
    &&& 0 <= k < v.len()
    &&& v[k] < value
    &&& forall|j: int| 0 <= j < k ==> v[j] >= value
}

/// Whether `value` enters the list `v`: the list is not full yet, or the
/// value beats one of its entries.
pub open spec fn enters(v: Seq<u32>, value: u32) -> bool {
    v.len() < NB_HIGHSCORES || exists|k: int| is_first_below(v, value, k)
}

/// The list `v` once `value` was offered to it. A list that is not full
/// takes the value and is put in ascending order. In a full list the value
/// takes the place of the first entry that it beats, if it beats any.
pub open spec fn updated(v: Seq<u32>, value: u32) -> Seq<u32> {
    if v.len() < NB_HIGHSCORES {
        v.push(value).sort_by(ascending())
    } else if exists|k: int| is_first_below(v, value, k) {
        v.update(choose|k: int| is_first_below(v, value, k), value)
    } else {
        v
    }
}

/// `<[u32]>::sort`, through the vector's slice: afterwards the vector holds
/// the same numbers as before, each as often as before, in ascending order.
#[verifier::external_body]
fn sort(v: &mut Vec<u32>)
    ensures
        final(v)@.to_multiset() == old(v)@.to_multiset(),
        forall|i: int, j: int| 0 <= i <= j < final(v)@.len() ==> final(v)@[i] <= final(v)@[j],
{
    v.sort();
}

/// Offers `value` to the list `v`, and says whether the list took it.
pub fn update_vec(v: &mut Vec<u32>, value: u32) -> (taken: bool)
    ensures
        final(v)@ == updated(old(v)@, value),
        taken == enters(old(v)@, value),
{
    if v.len() < NB_HIGHSCORES {
        v.push(value);
        let ghost pushed = v@;
        sort(v);
        proof {
            assert(vstd::relations::total_ordering(ascending()));
            pushed.lemma_sort_by_ensures(ascending());
            assert(vstd::relations::sorted_by(v@, ascending()));
            vstd::seq_lib::lemma_sorted_unique(v@, pushed.sort_by(ascending()), ascending());
        }
        true
    } else {
        let n = v.len();
        let mut i: usize = 0;
        while i < n
            invariant
                i <= n,
                n == v@.len(),
                n >= NB_HIGHSCORES,
                v@ == old(v)@,
                forall|j: int| 0 <= j < i ==> v@[j] >= value,
            decreases n - i,
        {
            if value > v[i] {
                proof {
                    assert(is_first_below(old(v)@, value, i as int));
                    let k = choose|k: int| is_first_below(old(v)@, value, k);
                    if k < i {
                        assert(old(v)@[k] >= value);
                    }
                    if k > i {
                        assert(old(v)@[i as int] >= value);
                    }
                }
                v[i] = value;
                return true;
            }
            i += 1;
        }
        false
    }
}

/// What the end of a game brings: whether the score and the line count are
/// new entries of their lists, and the text to store, if any.
pub struct GameInfo {
    pub new_highest_highscore: bool,
    pub new_highest_lines_sent: bool,
    pub to_save: Option<Vec<u8>>,
}

/// Offers the score and the line count of a finished game to the lists that
/// `stored` holds, and gives the text to store where either list took its
/// number. Where `stored` is missing or holds no lists, both numbers are
/// new and start the lists.
pub fn game_info(score: u32, nb_lines: u32, stored: Option<Vec<u8>>) -> (info: GameInfo)
    ensures
        match stored {
            Some(content) if loaded(content@) is Some => {
                let (highscores, lines_sent) = loaded(content@)->0;
                &&& info.new_highest_highscore == enters(highscores, score)
                &&& info.new_highest_lines_sent == enters(lines_sent, nb_lines)
                &&& match info.to_save {
                    Some(text) => (info.new_highest_highscore || info.new_highest_lines_sent)
                        && text@ == saved(updated(highscores, score), updated(lines_sent, nb_lines)),
                    None => !info.new_highest_highscore && !info.new_highest_lines_sent,
                }
            },
            _ => {
                &&& info.new_highest_highscore
                &&& info.new_highest_lines_sent
                &&& info.to_save matches Some(text) && text@ == saved(seq![score], seq![nb_lines])
            },
        },
{
    let lists = match stored {
        Some(content) => load_highscores_and_lines(content.as_slice()),
        None => None,
    };
    match lists {
        Some((mut highscores, mut lines_sent)) => {
            let new_highest_highscore = update_vec(&mut highscores, score);
            let new_highest_lines_sent = update_vec(&mut lines_sent, nb_lines);
            let to_save = if new_highest_highscore || new_highest_lines_sent {
                Some(save_highscore_and_lines(highscores.as_slice(), lines_sent.as_slice()))
            } else {
                None
            };
            GameInfo { new_highest_highscore, new_highest_lines_sent, to_save }
        },
        None => {
            let mut first_scores: Vec<u32> = Vec::new();
            first_scores.push(score);
            let mut first_lines: Vec<u32> = Vec::new();
            first_lines.push(nb_lines);
            assert(first_scores@ =~= seq![score]);
            assert(first_lines@ =~= seq![nb_lines]);
            GameInfo {
                new_highest_highscore: true,
                new_highest_lines_sent: true,
                to_save: Some(
                    save_highscore_and_lines(first_scores.as_slice(), first_lines.as_slice()),
                ),
            }
        },
    }
}

/// The digits of a number are digits, at least one, and write that number.
pub proof fn lemma_digits(n: nat)
    ensures
        digits(n).len() > 0,
        all_digits(digits(n)),
        value(digits(n)) == n,
    decreases n,
{
    if n < 10 {
        assert(digits(n).drop_last() =~= Seq::<u8>::empty());
        assert(value(digits(n).drop_last()) == 0);
    } else {
        lemma_digits(n / 10);
        assert(digits(n).drop_last() =~= digits(n / 10));
    }
}

/// A number that was written is read back.
pub proof fn lemma_digits_are_read_back(n: u32)
    ensures
        parsed(digits(n as nat)) == Some(n),
{
    lemma_digits(n as nat);
    assert(is_digit(digits(n as nat)[0]));
}

/// A split text has at least one piece.
pub proof fn lemma_split_len(s: Seq<u8>, sep: u8)
    ensures
        split(s, sep).len() >= 1,
    decreases s.len(),
{
    if s.len() > 0 {
        lemma_split_len(s.drop_last(), sep);
    }
}

/// Text without the parting byte, put after `s`, goes to the last piece of
/// `s`.
pub proof fn lemma_split_append(s: Seq<u8>, t: Seq<u8>, sep: u8)
    requires
        forall|i: int| 0 <= i < t.len() ==> t[i] != sep,
    ensures
        split(s, sep).len() >= 1,
        split(s + t, sep) == split(s, sep).drop_last().push(split(s, sep).last() + t),
    decreases t.len(),
{
    lemma_split_len(s, sep);
    let pieces = split(s, sep);
    if t.len() == 0 {
        assert(s + t =~= s);
        assert(pieces.last() + t =~= pieces.last());
        assert(pieces.drop_last().push(pieces.last()) =~= pieces);
    } else {
        lemma_split_append(s, t.drop_last(), sep);
        assert((s + t).drop_last() =~= s + t.drop_last());
        let head = split(s + t.drop_last(), sep);
        assert(head.drop_last() =~= pieces.drop_last());
        assert((pieces.last() + t.drop_last()).push(t.last()) =~= pieces.last() + t);
    }
}

/// The numbers of `values`, each as its digits.
pub open spec fn tokens(values: Seq<u32>) -> Seq<Seq<u8>> {
    Seq::new(values.len(), |i: int| digits(values[i] as nat))
}

/// A written list holds digits and spaces only, and splits at its spaces
/// into the digits of its numbers.
pub proof fn lemma_joined_splits(values: Seq<u32>)
    ensures
        forall|i: int|
            0 <= i < joined(values).len() ==> is_digit(#[trigger] joined(values)[i]) || joined(
                values,
            )[i] == SPACE,
        split(joined(values), SPACE) == if values.len() == 0 {
            seq![Seq::<u8>::empty()]
        } else {
            tokens(values)
        },
    decreases values.len(),
{
    if values.len() > 0 {
        let rest = values.drop_last();
        let last = digits(values.last() as nat);
        lemma_joined_splits(rest);
        lemma_digits(values.last() as nat);
        assert forall|i: int| 0 <= i < last.len() implies last[i] != SPACE by {
            assert(is_digit(last[i]));
        }
        if values.len() > 1 {
            let head = joined(rest).push(SPACE);
            assert(head.drop_last() =~= joined(rest));
            lemma_split_append(head, last, SPACE);
            assert(split(head, SPACE).last() + last =~= last);
            assert(split(head, SPACE).drop_last() =~= tokens(rest));
            assert(tokens(rest).push(last) =~= tokens(values));
        } else {
            lemma_split_append(joined(rest), last, SPACE);
            assert(joined(rest) =~= Seq::<u8>::empty());
            assert(split(joined(rest), SPACE).last() + last =~= last);
            assert(split(joined(rest), SPACE).drop_last().push(last) =~= tokens(values));
        }
    }
}

/// Reading the digits of a list of numbers gives the list.
pub proof fn lemma_tokens_parse(values: Seq<u32>)
    ensures
        tokens(values).filter_map(parse_token()) == values,
    decreases values.len(),
{
    if values.len() > 0 {
        lemma_tokens_parse(values.drop_last());
        lemma_digits_are_read_back(values.last());
        assert(tokens(values).drop_last() =~= tokens(values.drop_last()));
        assert(values.drop_last() + seq![values.last()] =~= values);
    } else {
        assert(tokens(values).filter_map(parse_token()) =~= values);
    }
}

/// A list that was written is read back.
pub proof fn lemma_list_is_read_back(values: Seq<u32>)
    ensures
        numbers(joined(values)) == values,
{
    lemma_joined_splits(values);
    lemma_tokens_parse(values);
    if values.len() == 0 {
        let pieces = seq![Seq::<u8>::empty()];
        assert(pieces.drop_last() =~= Seq::<Seq<u8>>::empty());
        assert(pieces.drop_last().filter_map(parse_token()) =~= Seq::<u32>::empty());
        assert(pieces.filter_map(parse_token()) =~= values);
    }
}

/// Reading back what was stored gives the two lists as they were.
pub proof fn lemma_saved_is_loaded(highscores: Seq<u32>, number_of_lines: Seq<u32>)
    ensures
        loaded(saved(highscores, number_of_lines)) == Some((highscores, number_of_lines)),
{
    let content = saved(highscores, number_of_lines);
    let first = joined(highscores);
    let second = joined(number_of_lines);
    let rest = second.push(NEWLINE);
    lemma_joined_splits(highscores);
    lemma_joined_splits(number_of_lines);
    assert forall|j: int| 0 <= j < first.len() implies content[j] != NEWLINE by {
        assert(content[j] == first[j]);
        assert(is_digit(first[j]) || first[j] == SPACE);
    }
    lemma_first_line(content, first.len() as int);
    assert(content.subrange(0, first.len() as int) =~= first);
    assert(content.subrange(first.len() as int + 1, content.len() as int) =~= rest);
    assert forall|j: int| 0 <= j < second.len() implies rest[j] != NEWLINE by {
        assert(rest[j] == second[j]);
        assert(is_digit(second[j]) || second[j] == SPACE);
    }
    lemma_first_line(rest, second.len() as int);
    assert(rest.subrange(0, second.len() as int) =~= second);
    lemma_list_is_read_back(highscores);
    lemma_list_is_read_back(number_of_lines);
}

} // verus!
