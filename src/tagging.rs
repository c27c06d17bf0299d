//! Reading the tagging model's answers: which tags it picked, and how far a
//! model download has come; and tidying text before it goes into a prompt.

use vstd::prelude::*;
use crate::text::{
    append_new, contains_name, contains_text, decimal, decimal_text, is_white, lower_of, lowercase,
    text_contains,
};
use crate::types::{tag_names, ClassificationInput, LlmTagConfig, LlmTagDefinition, ModelSource};

verus! {

pub open spec fn is_digit(c: char) -> bool {
    '0' <= c && c <= '9'
}

pub open spec fn digit_value(c: char) -> nat {
    (c as u32 - '0' as u32) as nat
}

/// Scanning state after reading `s`: the numbers completed so far, and the
/// value of the run of digits still open, if any.
pub open spec fn scan_numbers(s: Seq<char>) -> (Seq<nat>, Option<nat>)
    decreases s.len(),
{
    if s.len() == 0 {
        (Seq::empty(), None)
    } else {
        let (done, open) = scan_numbers(s.drop_last());
        let c = s.last();
        if is_digit(c) {
            (done, Some(match open {
                Some(v) => v * 10 + digit_value(c),
                None => digit_value(c),
            }))
        } else {
            match open {
                Some(v) => (done.push(v), None),
                None => (done, None),
            }
        }
    }
}

/// The values of the maximal runs of ASCII digits in `s`, in order.
pub open spec fn numbers_in(s: Seq<char>) -> Seq<nat> {
    let (done, open) = scan_numbers(s);
    match open {
        Some(v) => done.push(v),
        None => done,
    }
}

/// The tags that the numbers name (counting from one), each once, in order.
pub open spec fn tags_numbered(nums: Seq<nat>, names: Seq<Seq<char>>) -> Seq<Seq<char>>
    decreases nums.len(),
{
    if nums.len() == 0 {
        Seq::empty()
    } else {
        let prev = tags_numbered(nums.drop_last(), names);
        let v = nums.last();
        if 1 <= v && v <= names.len() {
            append_new(prev, seq![names[v - 1]])
        } else {
            prev
        }
    }
}

/// The names whose lower-cased form (`lowered_names`, index for index)
/// occurs in the lower-cased answer, each once, in configuration order.
pub open spec fn tags_mentioned(lowered: Seq<char>, names: Seq<Seq<char>>, lowered_names: Seq<Seq<char>>) -> Seq<Seq<char>>
    decreases names.len(),
{
    if names.len() == 0 {
        Seq::empty()
    } else {
        let prev = tags_mentioned(lowered, names.drop_last(), lowered_names);
        if contains_text(lowered, lowered_names[names.len() - 1]) {
            append_new(prev, seq![names.last()])
        } else {
            prev
        }
    }
}

pub open spec fn lowered_all(names: Seq<Seq<char>>) -> Seq<Seq<char>> {
    names.map_values(|n: Seq<char>| lower_of(n))
}

/// The tags picked by an answer: those it numbers; when it numbers none,
/// those it names.
pub open spec fn tags_picked(response: Seq<char>, names: Seq<Seq<char>>) -> Seq<Seq<char>> {
    let by_number = tags_numbered(numbers_in(response), names);
    if by_number.len() == 0 {
        tags_mentioned(lower_of(response), names, lowered_all(names))
    } else {
        by_number
    }
}

fn push_if_new(found: &mut Vec<String>, name: &String)
    ensures
        final(found).deep_view() == append_new(old(found).deep_view(), seq![name@]),
{
    let ghost before = found.deep_view();
    proof {
        assert(seq![name@].drop_last() =~= Seq::<Seq<char>>::empty());
        assert(seq![name@].last() == name@);
        assert(append_new(before, Seq::<Seq<char>>::empty()) == before);
    }
    if !contains_name(found.as_slice(), name) {
        found.push(name.clone());
        assert(found.deep_view() =~= before.push(name@));
    }
}

/// Reads the tag numbers in an answer such as "2, 5", keeping each tag once in
/// the order first named; numbers out of range are ignored. When no number
/// names a tag, falls back to tag names written out in the answer.
pub fn parse_tag_list(response: &str, tag_config: &LlmTagConfig) -> (r: Vec<String>)
    ensures
        r.deep_view() == tags_picked(response@, tag_names(tag_config.tags@)),
{
    let tags = &tag_config.tags;
    let ghost names = tag_names(tags@);
    let n = tags.len();
    let len = response.unicode_len();
    let mut found: Vec<String> = Vec::new();
    let mut open: Option<u128> = None;
    let mut i: usize = 0;
    while i < len
        invariant
            len == response@.len(),
            n == tags.len(),
            names == tag_names(tags@),
            i <= len,
            ({
                let (done, o) = scan_numbers(response@.subrange(0, i as int));
                &&& found.deep_view() == tags_numbered(done, names)
                &&& (o is None <==> open is None)
                &&& (o matches Some(v) ==> open matches Some(w) && w as int == (if v > n { n + 1 } else { v as int }))
            }),
        decreases len - i,
    {
        let c = response.get_char(i);
        let ghost head = response@.subrange(0, i as int);
        let ghost next = response@.subrange(0, i + 1);
        let ghost done = scan_numbers(head).0;
        let ghost o = scan_numbers(head).1;
        proof {
            assert(next.drop_last() =~= head);
            assert(next.last() == c);
        }
        if '0' <= c && c <= '9' {
            let d = (c as u32 - '0' as u32) as u128;
            assert(d as nat == digit_value(c));
            let w = match open {
                Some(w) => {
                    assert(w <= n as u128 + 1);
                    w * 10 + d
                },
                None => d,
            };
            open = Some(if w > n as u128 { n as u128 + 1 } else { w });
            proof {
                if let Some(v) = o {
                    if v > n {
                        assert(v * 10 + digit_value(c) > n) by (nonlinear_arith)
                            requires v > n;
                        assert(w > n);
                    }
                }
                assert(scan_numbers(next).0 == done);
            }
        } else {
            if let Some(w) = open {
                let ghost v = o->0;
                proof {
                    assert(scan_numbers(next).0 == done.push(v));
                    assert(done.push(v).drop_last() =~= done);
                    assert(done.push(v).last() == v);
                }
                if 1 <= w && w <= n as u128 {
                    let k = (w - 1) as usize;
                    push_if_new(&mut found, &tags[k].name);
                    proof {
                        assert(names[k as int] == tags@[k as int].name@);
                        assert(v == w);
                    }
                }
            }
            open = None;
        }
        i += 1;
    }
    proof {
        assert(response@.subrange(0, len as int) =~= response@);
    }
    let ghost done = scan_numbers(response@).0;
    let ghost o = scan_numbers(response@).1;
    if let Some(w) = open {
        let ghost v = o->0;
        proof {
            assert(numbers_in(response@) == done.push(v));
            assert(done.push(v).drop_last() =~= done);
            assert(done.push(v).last() == v);
        }
        if 1 <= w && w <= n as u128 {
            let k = (w - 1) as usize;
            push_if_new(&mut found, &tags[k].name);
            proof {
                assert(names[k as int] == tags@[k as int].name@);
                assert(v == w);
            }
        }
    }
    assert(found.deep_view() == tags_numbered(numbers_in(response@), names));
    if found.len() > 0 {
        return found;
    }
    let lowered = lowercase(response);
    let mut names: Vec<String> = Vec::new();
    let mut lowered_names: Vec<String> = Vec::new();
    let mut j: usize = 0;
    while j < n
        invariant
            n == tags.len(),
            j <= n,
            names.deep_view() == tag_names(tags@).subrange(0, j as int),
            lowered_names.deep_view() == lowered_all(tag_names(tags@).subrange(0, j as int)),
        decreases n - j,
    {
        let name = &tags[j].name;
        let ghost before_names = names.deep_view();
        let ghost before_lowered = lowered_names.deep_view();
        names.push(name.clone());
        lowered_names.push(lowercase(name.as_str()));
        proof {
            assert(names.deep_view() =~= before_names.push(name@));
            assert(tag_names(tags@).subrange(0, j + 1) =~= tag_names(tags@).subrange(0, j as int).push(name@));
            assert(lowered_names.deep_view() =~= before_lowered.push(lower_of(name@)));
            assert(lowered_all(tag_names(tags@).subrange(0, j + 1)) =~= lowered_all(tag_names(tags@).subrange(0, j as int)).push(lower_of(name@)));
        }
        j += 1;
    }
    proof {
        assert(tag_names(tags@).subrange(0, n as int) =~= tag_names(tags@));
    }
    pick_mentioned(lowered.as_str(), &names, &lowered_names)
}

/// The names whose lower-cased form occurs in the lower-cased answer, each
/// once, in order; `lowered_names` holds the lower-cased names, index for index.
pub fn pick_mentioned(lowered: &str, names: &Vec<String>, lowered_names: &Vec<String>) -> (r: Vec<String>)
    requires
        names.len() == lowered_names.len(),
    ensures
        r.deep_view() == tags_mentioned(lowered@, names.deep_view(), lowered_names.deep_view()),
{
    let n = names.len();
    let ghost nv = names.deep_view();
    let ghost lv = lowered_names.deep_view();
    let mut found: Vec<String> = Vec::new();
    let mut j: usize = 0;
    proof {
        assert(nv.subrange(0, 0) =~= Seq::<Seq<char>>::empty());
    }
    while j < n
        invariant
            n == names.len(),
            n == lowered_names.len(),
            nv == names.deep_view(),
            lv == lowered_names.deep_view(),
            j <= n,
            found.deep_view() == tags_mentioned(lowered@, nv.subrange(0, j as int), lv),
        decreases n - j,
    {
        proof {
            let head = nv.subrange(0, j + 1);
            assert(head.drop_last() =~= nv.subrange(0, j as int));
            assert(head.last() == nv[j as int]);
        }
        if text_contains(lowered, lowered_names[j].as_str()) {
            push_if_new(&mut found, &names[j]);
        }
        j += 1;
    }
    proof {
        assert(nv.subrange(0, n as int) =~= nv);
    }
    found
}

/// `s` without its leading `White_Space` characters.
pub open spec fn strip_front(s: Seq<char>) -> Seq<char>
    decreases s.len(),
{
    if s.len() > 0 && is_white(s[0]) {
        strip_front(s.subrange(1, s.len() as int))
    } else {
        s
    }
}

/// `s` without its trailing `White_Space` characters.
pub open spec fn strip_back(s: Seq<char>) -> Seq<char>
    decreases s.len(),
{
    if s.len() > 0 && is_white(s.last()) {
        strip_back(s.drop_last())
    } else {
        s
    }
}

/// `s` without leading and trailing `White_Space` characters.
pub open spec fn trim_text(s: Seq<char>) -> Seq<char> {
    strip_back(strip_front(s))
}

/// Relies on `str::trim`: removes leading and trailing `White_Space` characters.
#[verifier::external_body]
fn trim_str(s: &str) -> (r: &str)
    ensures
        r@ == trim_text(s@),
{
    s.trim()
}

/// The pieces of `s` between line feeds (one more than there are line feeds).
pub open spec fn pieces(s: Seq<char>) -> Seq<Seq<char>>
    decreases s.len(),
{
    if s.len() == 0 {
        seq![Seq::empty()]
    } else {
        let p = pieces(s.drop_last());
        if s.last() == '\n' {
            p.push(Seq::empty())
        } else {
            p.update(p.len() - 1, p.last().push(s.last()))
        }
    }
}

/// The trimmed pieces that are not empty, in order.
pub open spec fn kept_trimmed(ps: Seq<Seq<char>>) -> Seq<Seq<char>>
    decreases ps.len(),
{
    if ps.len() == 0 {
        Seq::empty()
    } else {
        let prev = kept_trimmed(ps.drop_last());
        if trim_text(ps.last()).len() > 0 {
            prev.push(trim_text(ps.last()))
        } else {
            prev
        }
    }
}

/// The parts joined with single spaces.
pub open spec fn join_spaced(parts: Seq<Seq<char>>) -> Seq<char>
    decreases parts.len(),
{
    if parts.len() == 0 {
        Seq::empty()
    } else if parts.len() == 1 {
        parts[0]
    } else {
        join_spaced(parts.drop_last()) + seq![' '] + parts.last()
    }
}

/// Each line trimmed, blank lines dropped, the rest joined with spaces.
pub open spec fn sanitized(s: Seq<char>) -> Seq<char> {
    join_spaced(kept_trimmed(pieces(s)))
}

/// Flattens text to one line: lines are trimmed, blank ones dropped, and the
/// rest joined with single spaces (a carriage return before a line feed goes
/// with the trimming).
pub fn sanitize_input(text: &str) -> (r: String)
    ensures
        r@ == sanitized(text@),
{
    let len = text.unicode_len();
    let mut out = String::new();
    let mut any = false;
    let mut start: usize = 0;
    let ghost mut parts: Seq<Seq<char>> = Seq::empty();
    let mut i: usize = 0;
    proof {
        assert(text@.subrange(0, 0) =~= Seq::<char>::empty());
        assert(text@.subrange(0, 0) =~= text@.subrange(0, 0));
        assert(pieces(Seq::<char>::empty()).drop_last() =~= Seq::<Seq<char>>::empty());
    }
    while i < len
        invariant
            len == text@.len(),
            start <= i <= len,
            pieces(text@.subrange(0, i as int)).len() >= 1,
            pieces(text@.subrange(0, i as int)).last() == text@.subrange(start as int, i as int),
            parts == kept_trimmed(pieces(text@.subrange(0, i as int)).drop_last()),
            out@ == join_spaced(parts),
            any == (parts.len() > 0),
        decreases len - i,
    {
        let c = text.get_char(i);
        let ghost head = text@.subrange(0, i as int);
        let ghost next = text@.subrange(0, i + 1);
        proof {
            assert(next.drop_last() =~= head);
            assert(next.last() == c);
        }
        if c == '\n' {
            let piece = text.substring_char(start, i);
            let t = trim_str(piece);
            proof {
                let p = pieces(head);
                assert(pieces(next) == p.push(Seq::<char>::empty()));
                assert(pieces(next).drop_last() =~= p);
                assert(p.drop_last().push(p.last()) =~= p);
                assert(p.last() == piece@);
            }
            if t.unicode_len() > 0 {
                let ghost old_parts = parts;
                proof {
                    parts = parts.push(t@);
                    assert(parts.drop_last() =~= old_parts);
                }
                if any {
                    out.append(" ");
                    proof {
                        reveal_strlit(" ");
                        assert(" "@ =~= seq![' ']);
                    }
                }
                out.append(t);
                proof {
                    if old_parts.len() == 0 {
                        assert(out@ =~= join_spaced(parts));
                    } else {
                        assert(out@ =~= join_spaced(old_parts) + seq![' '] + t@);
                    }
                }
                any = true;
            }
            start = i + 1;
            proof {
                assert(text@.subrange(start as int, i + 1) =~= Seq::<char>::empty());
            }
        } else {
            proof {
                let p = pieces(head);
                let q = pieces(next);
                assert(q == p.update(p.len() - 1, p.last().push(c)));
                assert(q.drop_last() =~= p.drop_last());
                assert(text@.subrange(start as int, i + 1) =~= text@.subrange(start as int, i as int).push(c));
            }
        }
        i += 1;
    }
    let piece = text.substring_char(start, len);
    let t = trim_str(piece);
    proof {
        assert(text@.subrange(0, len as int) =~= text@);
        let p = pieces(text@);
        assert(p.drop_last().push(p.last()) =~= p);
    }
    if t.unicode_len() > 0 {
        let ghost old_parts = parts;
        proof {
            parts = parts.push(t@);
        }
        if any {
            out.append(" ");
            proof {
                reveal_strlit(" ");
                assert(" "@ =~= seq![' ']);
            }
        }
        out.append(t);
        proof {
            if old_parts.len() == 0 {
                assert(out@ =~= join_spaced(parts));
            } else {
                assert(parts.drop_last() =~= old_parts);
                assert(out@ =~= join_spaced(old_parts) + seq![' '] + t@);
            }
        }
    }
    out
}

/// The pieces of `s` between whitespace characters; empty pieces included.
pub open spec fn word_pieces(s: Seq<char>) -> Seq<Seq<char>>
    decreases s.len(),
{
    if s.len() == 0 {
        seq![Seq::empty()]
    } else {
        let p = word_pieces(s.drop_last());
        if is_white(s.last()) {
            p.push(Seq::empty())
        } else {
            p.update(p.len() - 1, p.last().push(s.last()))
        }
    }
}

/// `w` without its trailing percent signs.
pub open spec fn strip_percents(w: Seq<char>) -> Seq<char>
    decreases w.len(),
{
    if w.len() > 0 && w.last() == '%' {
        strip_percents(w.drop_last())
    } else {
        w
    }
}

/// The value of a string of decimal digits.
pub open spec fn digits_value(d: Seq<char>) -> nat
    decreases d.len(),
{
    if d.len() == 0 {
        0
    } else {
        digits_value(d.drop_last()) * 10 + digit_value(d.last())
    }
}

/// `t` without a leading `+`.
pub open spec fn sign_stripped(t: Seq<char>) -> Seq<char> {
    if t.len() > 0 && t[0] == '+' {
        t.subrange(1, t.len() as int)
    } else {
        t
    }
}

pub open spec fn all_digits(d: Seq<char>) -> bool {
    forall|i: int| 0 <= i < d.len() ==> is_digit(#[trigger] d[i])
}

/// What `u8`'s `from_str` reads from `t`: an optional `+`, then one or more
/// ASCII digits whose value is at most 255.
pub open spec fn u8_text(t: Seq<char>) -> Option<nat> {
    let d = sign_stripped(t);
    if d.len() > 0 && all_digits(d) && digits_value(d) <= 255 {
        Some(digits_value(d))
    } else {
        None
    }
}

/// The percentage a word such as `45%` gives, at most 100.
pub open spec fn word_percent(w: Seq<char>) -> Option<u8> {
    if w.len() > 0 && w.last() == '%' {
        match u8_text(strip_percents(w)) {
            Some(v) => Some(if v > 100 { 100u8 } else { v as u8 }),
            None => None,
        }
    } else {
        None
    }
}

/// The percentage of the first word that gives one.
pub open spec fn first_percent(ws: Seq<Seq<char>>) -> Option<u8>
    decreases ws.len(),
{
    if ws.len() == 0 {
        None
    } else {
        match first_percent(ws.drop_last()) {
            Some(p) => Some(p),
            None => word_percent(ws.last()),
        }
    }
}

#[verifier::rlimit(40)]
fn percent_of_word(w: &str) -> (r: Option<u8>)
    ensures
        r == word_percent(w@),
{
    let n = w.unicode_len();
    if n == 0 || w.get_char(n - 1) != '%' {
        return None;
    }
    let mut end = n;
    proof {
        assert(w@.subrange(0, n as int) =~= w@);
        assert(w@.last() == '%');
    }
    while end > 0 && w.get_char(end - 1) == '%'
        invariant
            n == w@.len(),
            end <= n,
            strip_percents(w@) == strip_percents(w@.subrange(0, end as int)),
        decreases end,
    {
        proof {
            let t = w@.subrange(0, end as int);
            assert(t.drop_last() =~= w@.subrange(0, end - 1));
        }
        end -= 1;
    }
    let ghost t = w@.subrange(0, end as int);
    proof {
        assert(w@.subrange(0, n as int) =~= w@);
        if end > 0 {
            assert(t.last() == w@[end - 1]);
        }
        assert(strip_percents(w@) == t);
    }
    let begin: usize = if end > 0 && w.get_char(0) == '+' { 1 } else { 0 };
    let ghost d = sign_stripped(t);
    proof {
        assert(d =~= w@.subrange(begin as int, end as int));
    }
    if begin == end {
        return None;
    }
    let mut v: u32 = 0;
    let mut k = begin;
    while k < end
        invariant
            n == w@.len(),
            begin <= k <= end <= n,
            d == w@.subrange(begin as int, end as int),
            w@.len() > 0 && w@.last() == '%',
            strip_percents(w@) == t,
            d == sign_stripped(t),
            forall|i: int| begin <= i < k ==> is_digit(#[trigger] w@[i]),
            v as nat == (if digits_value(w@.subrange(begin as int, k as int)) > 255 { 256 } else { digits_value(w@.subrange(begin as int, k as int)) }),
        decreases end - k,
    {
        let c = w.get_char(k);
        if !('0' <= c && c <= '9') {
            proof {
                assert(d[k - begin] == c);
                assert(!is_digit(d[k - begin]));
                assert(0 <= k - begin < d.len());
                assert(u8_text(t) is None);
            }
            return None;
        }
        let ghost prev = w@.subrange(begin as int, k as int);
        let ghost next = w@.subrange(begin as int, k + 1);
        proof {
            assert(next.drop_last() =~= prev);
            assert(next.last() == c);
            let x = digits_value(prev);
            if x > 255 {
                assert(x * 10 + digit_value(c) > 255) by (nonlinear_arith)
                    requires x > 255;
            }
        }
        let dv = c as u32 - '0' as u32;
        let nv = v * 10 + dv;
        v = if nv > 255 { 256 } else { nv };
        k += 1;
    }
    proof {
        assert forall|i: int| 0 <= i < d.len() implies is_digit(#[trigger] d[i]) by {
            assert(d[i] == w@[begin + i]);
        }
    }
    if v > 255 {
        None
    } else if v > 100 {
        Some(100)
    } else {
        Some(v as u8)
    }
}

/// The first percentage in a progress line ("pulling abc123... 45%"), at most
/// 100; `None` when no word is a number followed by `%`.
pub fn parse_percentage(line: &str) -> (r: Option<u8>)
    ensures
        r == first_percent(word_pieces(line@)),
{
    let len = line.unicode_len();
    let mut start: usize = 0;
    let mut i: usize = 0;
    proof {
        assert(line@.subrange(0, 0) =~= Seq::<char>::empty());
        assert(word_pieces(Seq::<char>::empty()).drop_last() =~= Seq::<Seq<char>>::empty());
    }
    while i < len
        invariant
            len == line@.len(),
            start <= i <= len,
            word_pieces(line@.subrange(0, i as int)).len() >= 1,
            word_pieces(line@.subrange(0, i as int)).last() == line@.subrange(start as int, i as int),
            first_percent(word_pieces(line@.subrange(0, i as int)).drop_last()) is None,
        decreases len - i,
    {
        let c = line.get_char(i);
        let ghost head = line@.subrange(0, i as int);
        let ghost next = line@.subrange(0, i + 1);
        proof {
            assert(next.drop_last() =~= head);
            assert(next.last() == c);
        }
        if crate::text::char_is_white(c) {
            let word = line.substring_char(start, i);
            let p = percent_of_word(word);
            proof {
                let ps = word_pieces(head);
                assert(word_pieces(next) == ps.push(Seq::<char>::empty()));
                assert(word_pieces(next).drop_last() =~= ps);
                assert(ps.drop_last().push(ps.last()) =~= ps);
                assert(first_percent(word_pieces(next)) == first_percent(ps)) by {
                    assert(word_pieces(next).last() == Seq::<char>::empty());
                    assert(first_percent(word_pieces(next).drop_last()) == first_percent(ps));
                }
            }
            if p.is_some() {
                proof {
                    let ps = word_pieces(head);
                    assert(ps.drop_last().push(ps.last()) =~= ps);
                    assert(first_percent(ps) == p);
                    assert(line@.subrange(0, len as int) =~= line@);
                    lemma_completed_pieces_kept(line@, i as int + 1);
                    assert(word_pieces(line@).subrange(0, ps.len() as int) == ps);
                    lemma_first_percent_prefix(word_pieces(line@), ps.len() as int);
                }
                return p;
            }
            start = i + 1;
            proof {
                assert(line@.subrange(start as int, i + 1) =~= Seq::<char>::empty());
            }
        } else {
            proof {
                let ps = word_pieces(head);
                let q = word_pieces(next);
                assert(q == ps.update(ps.len() - 1, ps.last().push(c)));
                assert(q.drop_last() =~= ps.drop_last());
                assert(line@.subrange(start as int, i + 1) =~= line@.subrange(start as int, i as int).push(c));
            }
        }
        i += 1;
    }
    let word = line.substring_char(start, len);
    proof {
        assert(line@.subrange(0, len as int) =~= line@);
        let ps = word_pieces(line@);
        assert(ps.drop_last().push(ps.last()) =~= ps);
    }
    percent_of_word(word)
}

/// A sequence of words whose beginning already gives a percentage gives the same one.
proof fn lemma_first_percent_prefix(ws: Seq<Seq<char>>, m: int)
    requires
        0 <= m <= ws.len(),
        first_percent(ws.subrange(0, m)) is Some,
    ensures
        first_percent(ws) == first_percent(ws.subrange(0, m)),
    decreases ws.len(),
{
    if m == ws.len() {
        assert(ws.subrange(0, m) =~= ws);
    } else {
        assert(ws.drop_last().subrange(0, m) =~= ws.subrange(0, m));
        lemma_first_percent_prefix(ws.drop_last(), m);
    }
}

/// Reading on keeps the pieces already completed.
proof fn lemma_completed_pieces_kept(s: Seq<char>, k: int)
    requires
        0 <= k <= s.len(),
    ensures
        word_pieces(s.subrange(0, k)).len() <= word_pieces(s).len(),
        word_pieces(s).subrange(0, word_pieces(s.subrange(0, k)).len() - 1) == word_pieces(s.subrange(0, k)).drop_last(),
    decreases s.len() - k,
{
    lemma_pieces_ws_nonempty(s.subrange(0, k));
    if k == s.len() {
        assert(s.subrange(0, k) =~= s);
        let p = word_pieces(s);
        assert(p.subrange(0, p.len() - 1) =~= p.drop_last());
    } else {
        let head = s.subrange(0, k);
        let next = s.subrange(0, k + 1);
        assert(next.drop_last() =~= head);
        lemma_completed_pieces_kept(s, k + 1);
        let ph = word_pieces(head);
        let pn = word_pieces(next);
        let ps = word_pieces(s);
        if is_white(next.last()) {
            assert(pn.drop_last() =~= ph);
            assert(ps.subrange(0, ph.len() - 1) =~= ps.subrange(0, pn.len() - 1).subrange(0, ph.len() - 1));
            assert(ph.drop_last() =~= pn.drop_last().subrange(0, ph.len() - 1));
        } else {
            assert(pn.drop_last() =~= ph.drop_last());
        }
    }
}

proof fn lemma_pieces_ws_nonempty(s: Seq<char>)
    ensures
        word_pieces(s).len() >= 1,
    decreases s.len(),
{
    if s.len() > 0 {
        lemma_pieces_ws_nonempty(s.drop_last());
    }
}

/// The parts joined with `sep` between each two.
pub open spec fn join_sep(parts: Seq<Seq<char>>, sep: Seq<char>) -> Seq<char>
    decreases parts.len(),
{
    if parts.len() == 0 {
        Seq::empty()
    } else if parts.len() == 1 {
        parts[0]
    } else {
        join_sep(parts.drop_last(), sep) + sep + parts.last()
    }
}

/// Joins the parts with `sep` between each two.
pub fn join_strings(parts: &Vec<String>, sep: &str) -> (r: String)
    ensures
        r@ == join_sep(parts.deep_view(), sep@),
{
    let mut out = String::new();
    let mut i: usize = 0;
    proof {
        assert(parts.deep_view().subrange(0, 0) =~= Seq::<Seq<char>>::empty());
    }
    while i < parts.len()
        invariant
            i <= parts.len(),
            out@ == join_sep(parts.deep_view().subrange(0, i as int), sep@),
        decreases parts.len() - i,
    {
        let ghost before = parts.deep_view().subrange(0, i as int);
        let ghost after = parts.deep_view().subrange(0, i + 1);
        proof {
            assert(after.drop_last() =~= before);
            assert(after.last() == parts.deep_view()[i as int]);
        }
        if i > 0 {
            out.append(sep);
        }
        out.append(parts[i].as_str());
        proof {
            if i == 0 {
                assert(out@ =~= join_sep(after, sep@));
            }
        }
        i += 1;
    }
    proof {
        assert(parts.deep_view().subrange(0, i as int) =~= parts.deep_view());
    }
    out
}

pub open spec fn sanitized_all(v: Seq<Seq<char>>) -> Seq<Seq<char>> {
    v.map_values(|x: Seq<char>| sanitized(x))
}

fn sanitize_all(v: &Vec<String>) -> (r: Vec<String>)
    ensures
        r.deep_view() == sanitized_all(v.deep_view()),
{
    let mut out: Vec<String> = Vec::new();
    let mut i: usize = 0;
    while i < v.len()
        invariant
            i <= v.len(),
            out.deep_view() == sanitized_all(v.deep_view().subrange(0, i as int)),
        decreases v.len() - i,
    {
        let ghost before = out.deep_view();
        let t = sanitize_input(v[i].as_str());
        out.push(t);
        proof {
            assert(out.deep_view() =~= before.push(t@));
            assert(sanitized_all(v.deep_view().subrange(0, i + 1)) =~= sanitized_all(v.deep_view().subrange(0, i as int)).push(sanitized(v.deep_view()[i as int])));
        }
        i += 1;
    }
    proof {
        assert(v.deep_view().subrange(0, i as int) =~= v.deep_view());
    }
    out
}

/// How the request's files appear in the prompt: the declared files, else
/// the changed files of the git context, each flattened; `none` when there
/// are none to show.
pub open spec fn files_text(input: ClassificationInput) -> Seq<char> {
    match input.associated_files {
        Some(f) => if f.len() > 0 {
            join_sep(sanitized_all(f.deep_view()), ", "@)
        } else {
            "none"@
        },
        None => match input.git_context {
            Some(g) => join_sep(sanitized_all(g.changed_files.deep_view()), ", "@),
            None => "none"@,
        },
    }
}

fn files_line(input: &ClassificationInput) -> (r: String)
    ensures
        r@ == files_text(*input),
{
    match &input.associated_files {
        Some(f) => if f.len() > 0 {
            join_strings(&sanitize_all(f), ", ")
        } else {
            String::from_str("none")
        },
        None => match &input.git_context {
            Some(g) => join_strings(&sanitize_all(&g.changed_files), ", "),
            None => String::from_str("none"),
        },
    }
}

/// One numbered line of the tag menu, with its examples when it has any.
pub open spec fn tag_line(k: nat, t: LlmTagDefinition) -> Seq<char> {
    let head = decimal(k + 1) + ". "@ + t.name@ + " - "@ + t.description@;
    if t.examples.len() > 0 {
        head + "\n   Examples: "@ + join_sep(t.examples.deep_view(), ", "@)
    } else {
        head
    }
}

pub open spec fn tag_lines(tags: Seq<LlmTagDefinition>) -> Seq<Seq<char>> {
    Seq::new(tags.len(), |k: int| tag_line(k as nat, tags[k]))
}

fn tag_menu_line(k: usize, t: &LlmTagDefinition) -> (r: String)
    requires
        k < usize::MAX,
    ensures
        r@ == tag_line(k as nat, *t),
{
    let mut m = decimal_text(k as u128 + 1);
    m.append(". ");
    m.append(t.name.as_str());
    m.append(" - ");
    m.append(t.description.as_str());
    if t.examples.len() > 0 {
        m.append("\n   Examples: ");
        m.append(join_strings(&t.examples, ", ").as_str());
    }
    m
}

/// The request as shown to the model.
pub open spec fn request_text(input: ClassificationInput) -> Seq<char> {
    match input.original_prompt {
        Some(o) => "Task: \""@ + sanitized(input.task@) + "\"\nIntent: \""@ + sanitized(input.intent@)
            + "\"\nOriginal request: \""@ + sanitized(o@) + "\"\nChanged files: "@ + files_text(input),
        None => "Task: \""@ + sanitized(input.task@) + "\"\nIntent: \""@ + sanitized(input.intent@)
            + "\"\nChanged files: "@ + files_text(input),
    }
}

/// The question put to the tagging model: the request, then the numbered
/// tags, then how to answer.
pub open spec fn tagging_prompt(input: ClassificationInput, tags: Seq<LlmTagDefinition>) -> Seq<char> {
    "You are a code task classifier. Be CONSERVATIVE - only select tags that CLEARLY match.\n\n"@
        + request_text(input) + "\n\nWhich tags apply? Choose from:\n"@ + join_sep(tag_lines(tags), "\n"@)
        + "\n\nIMPORTANT:\n- Only select tags if there is CLEAR evidence in the task/intent. If the task is vague or generic (like \"help me\" or \"do something\"), reply \"0\"\n- Do NOT guess or assume. When in doubt, reply \"0\"\n\nReply with the number(s) only, comma-separated. Reply \"0\" if none apply."@
}

/// Builds the question put to the tagging model.
pub fn build_tagging_prompt(input: &ClassificationInput, tag_config: &LlmTagConfig) -> (r: String)
    ensures
        r@ == tagging_prompt(*input, tag_config.tags@),
{
    let tags = &tag_config.tags;
    let mut lines: Vec<String> = Vec::new();
    let mut k: usize = 0;
    while k < tags.len()
        invariant
            k <= tags.len(),
            lines.deep_view() == tag_lines(tags@).subrange(0, k as int),
        decreases tags.len() - k,
    {
        let ghost before = lines.deep_view();
        let line = tag_menu_line(k, &tags[k]);
        lines.push(line);
        proof {
            assert(lines.deep_view() =~= before.push(line@));
            assert(tag_lines(tags@).subrange(0, k + 1) =~= tag_lines(tags@).subrange(0, k as int).push(tag_line(k as nat, tags@[k as int])));
        }
        k += 1;
    }
    proof {
        assert(tag_lines(tags@).subrange(0, k as int) =~= tag_lines(tags@));
    }
    let mut m = String::from_str("You are a code task classifier. Be CONSERVATIVE - only select tags that CLEARLY match.\n\n");
    m.append("Task: \"");
    m.append(sanitize_input(input.task.as_str()).as_str());
    m.append("\"\nIntent: \"");
    m.append(sanitize_input(input.intent.as_str()).as_str());
    if let Some(o) = &input.original_prompt {
        m.append("\"\nOriginal request: \"");
        m.append(sanitize_input(o.as_str()).as_str());
    }
    m.append("\"\nChanged files: ");
    m.append(files_line(input).as_str());
    m.append("\n\nWhich tags apply? Choose from:\n");
    m.append(join_strings(&lines, "\n").as_str());
    m.append("\n\nIMPORTANT:\n- Only select tags if there is CLEAR evidence in the task/intent. If the task is vague or generic (like \"help me\" or \"do something\"), reply \"0\"\n- Do NOT guess or assume. When in doubt, reply \"0\"\n\nReply with the number(s) only, comma-separated. Reply \"0\" if none apply.");
    proof {
        assert(m@ =~= tagging_prompt(*input, tags@));
    }
    m
}

/// Whether a model name (lower-cased) belongs to a family that can reason
/// before answering.
pub open spec fn thinking_family(lowered: Seq<char>) -> bool {
    contains_text(lowered, "deepseek-r1"@) || contains_text(lowered, "qwen3"@) || contains_text(lowered, "qwen2.5"@)
        || contains_text(lowered, "cogito"@) || contains_text(lowered, "exaone-deep"@) || contains_text(lowered, "qwq"@)
        || contains_text(lowered, "marco-o1"@) || contains_text(lowered, "aya-expanse"@)
}

/// The family test, given the model name already lower-cased.
pub fn is_thinking_family(lowered: &str) -> (r: bool)
    ensures
        r == thinking_family(lowered@),
{
    text_contains(lowered, "deepseek-r1") || text_contains(lowered, "qwen3") || text_contains(lowered, "qwen2.5")
        || text_contains(lowered, "cogito") || text_contains(lowered, "exaone-deep") || text_contains(lowered, "qwq")
        || text_contains(lowered, "marco-o1") || text_contains(lowered, "aya-expanse")
}

/// Whether the model can be asked to reason before answering.
pub fn supports_thinking(model_name: &str) -> (r: bool)
    ensures
        r == thinking_family(lower_of(model_name@)),
{
    let lowered = lowercase(model_name);
    is_thinking_family(lowered.as_str())
}

/// The name the model server knows a model by: Hugging Face models carry the
/// `hf.co/` prefix.
pub fn effective_model_name(model_name: &str, source: ModelSource) -> (r: String)
    ensures
        r@ == (match source {
            ModelSource::HuggingFace => "hf.co/"@ + model_name@,
            ModelSource::Ollama => model_name@,
        }),
{
    match source {
        ModelSource::HuggingFace => {
            let mut m = String::from_str("hf.co/");
            m.append(model_name);
            m
        },
        ModelSource::Ollama => String::from_str(model_name),
    }
}

/// The part of a model name before its first `:` (the whole name without one).
pub open spec fn model_base(name: Seq<char>) -> Seq<char>
    decreases name.len(),
{
    if name.len() == 0 {
        name
    } else if model_base(name.drop_last()).len() < name.len() - 1 {
        model_base(name.drop_last())
    } else if name.last() == ':' {
        name.drop_last()
    } else {
        name
    }
}

/// Whether the server lists the model: under its exact name, or under a name
/// that starts with its base.
pub open spec fn model_listed(name: Seq<char>, listed: Seq<Seq<char>>) -> bool {
    exists|i: int| 0 <= i < listed.len() && (#[trigger] listed[i] == name || model_base(name).is_prefix_of(listed[i]))
}

proof fn lemma_model_base_len(name: Seq<char>)
    ensures
        model_base(name).len() <= name.len(),
        model_base(name) == name.subrange(0, model_base(name).len() as int),
    decreases name.len(),
{
    if name.len() > 0 {
        lemma_model_base_len(name.drop_last());
        assert(name.drop_last().subrange(0, model_base(name.drop_last()).len() as int) =~= name.subrange(0, model_base(name.drop_last()).len() as int));
        assert(name.subrange(0, name.len() - 1) =~= name.drop_last());
        assert(name.subrange(0, name.len() as int) =~= name);
    }
}

fn base_of(name: &str) -> (r: &str)
    ensures
        r@ == model_base(name@),
{
    let n = name.unicode_len();
    let mut i: usize = 0;
    proof {
        assert(name@.subrange(0, 0) =~= Seq::<char>::empty());
    }
    while i < n
        invariant
            n == name@.len(),
            i <= n,
            model_base(name@.subrange(0, i as int)) == name@.subrange(0, i as int),
        decreases n - i,
    {
        let ghost head = name@.subrange(0, i as int);
        let ghost next = name@.subrange(0, i + 1);
        proof {
            assert(next.drop_last() =~= head);
        }
        if name.get_char(i) == ':' {
            let r = name.substring_char(0, i);
            proof {
                lemma_model_base_len(name@);
                lemma_base_fixed_after(name@, i as int + 1);
            }
            return r;
        }
        i += 1;
    }
    proof {
        assert(name@.subrange(0, n as int) =~= name@);
    }
    name
}

/// Once the base has stopped at a `:`, reading on keeps it.
proof fn lemma_base_fixed_after(name: Seq<char>, k: int)
    requires
        1 <= k <= name.len(),
        name[k - 1] == ':',
        model_base(name.subrange(0, k - 1)) == name.subrange(0, k - 1),
    ensures
        model_base(name) == name.subrange(0, k - 1),
    decreases name.len() - k,
{
    let head = name.subrange(0, k - 1);
    let next = name.subrange(0, k);
    assert(next.drop_last() =~= head);
    assert(model_base(next) == head);
    lemma_base_stays(name, k);
}

proof fn lemma_base_stays(name: Seq<char>, k: int)
    requires
        1 <= k <= name.len(),
        model_base(name.subrange(0, k)).len() < k,
    ensures
        model_base(name) == model_base(name.subrange(0, k)),
    decreases name.len() - k,
{
    if k == name.len() {
        assert(name.subrange(0, k) =~= name);
    } else {
        let next = name.subrange(0, k + 1);
        assert(next.drop_last() =~= name.subrange(0, k));
        lemma_base_stays(name, k + 1);
    }
}

fn starts_with_text(s: &str, prefix: &str) -> (r: bool)
    ensures
        r == prefix@.is_prefix_of(s@),
{
    let n = prefix.unicode_len();
    let m = s.unicode_len();
    if n > m {
        return false;
    }
    let mut i: usize = 0;
    while i < n
        invariant
            n == prefix@.len(),
            m == s@.len(),
            n <= m,
            i <= n,
            forall|j: int| 0 <= j < i ==> prefix@[j] == s@[j],
        decreases n - i,
    {
        if prefix.get_char(i) != s.get_char(i) {
            return false;
        }
        i += 1;
    }
    true
}

/// Whether a model the server lists is the one asked for (see `model_listed`).
pub fn model_present(effective_name: &str, listed: &Vec<String>) -> (r: bool)
    ensures
        r == model_listed(effective_name@, listed.deep_view()),
{
    let base = base_of(effective_name);
    let mut i: usize = 0;
    while i < listed.len()
        invariant
            i <= listed.len(),
            base@ == model_base(effective_name@),
            forall|j: int| 0 <= j < i ==> !(#[trigger] listed.deep_view()[j] == effective_name@ || model_base(effective_name@).is_prefix_of(listed.deep_view()[j])),
        decreases listed.len() - i,
    {
        let item = listed[i].as_str();
        let same = listed[i].as_str().unicode_len() == effective_name.unicode_len() && starts_with_text(item, effective_name);
        if same || starts_with_text(item, base) {
            proof {
                assert(item@ == listed.deep_view()[i as int]);
                if same {
                    assert(listed.deep_view()[i as int] =~= effective_name@);
                }
                assert(listed.deep_view()[i as int] == effective_name@ || model_base(effective_name@).is_prefix_of(listed.deep_view()[i as int]));
            }
            return true;
        }
        proof {
            assert(item@ == listed.deep_view()[i as int]);
            if listed.deep_view()[i as int] == effective_name@ {
                assert(effective_name@.is_prefix_of(item@));
            }
        }
        i += 1;
    }
    false
}

} // verus!
