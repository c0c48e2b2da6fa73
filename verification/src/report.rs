//! Messages for the log.
use crate::desktop_list::list_text;
use crate::media_type::Mime;
use crate::mime_apps::MimeApps;
use crate::mime_map::Associations;
use crate::selector::is_control_char;
use crate::text::chars_of;
use vstd::prelude::*;

verus! {

/// The hexadecimal digit of value `d`.
pub open spec fn hex_digit(d: int) -> char {
    if d < 10 {
        crate::text::digit(d)
    } else if d == 10 {
        'a'
    } else if d == 11 {
        'b'
    } else if d == 12 {
        'c'
    } else if d == 13 {
        'd'
    } else if d == 14 {
        'e'
    } else {
        'f'
    }
}

/// The hexadecimal notation of `n`.
pub open spec fn hexadecimal(n: nat) -> Seq<char>
    decreases n,
{
    if n < 16 {
        seq![hex_digit(n as int)]
    } else {
        hexadecimal(n / 16).push(hex_digit((n % 16) as int))
    }
}

fn hex_char(d: u32) -> (r: char)
    requires
        d < 16,
    ensures
        r == hex_digit(d as int),
{
    match d {
        0 => '0',
        1 => '1',
        2 => '2',
        3 => '3',
        4 => '4',
        5 => '5',
        6 => '6',
        7 => '7',
        8 => '8',
        9 => '9',
        10 => 'a',
        11 => 'b',
        12 => 'c',
        13 => 'd',
        14 => 'e',
        _ => 'f',
    }
}

/// The hexadecimal notation of `n`.
fn hex_text(n: u32) -> (r: String)
    ensures
        r@ == hexadecimal(n as nat),
    decreases n,
{
    if n < 16 {
        let mut r = String::new();
        r.push(hex_char(n));
        assert(r@ =~= hexadecimal(n as nat));
        r
    } else {
        let mut r = hex_text(n / 16);
        r.push(hex_char(n % 16));
        r
    }
}

/// How a character is shown: control characters as escape sequences, all others
/// as they are.
pub open spec fn shown(c: char) -> Seq<char> {
    if !is_control_char(c) {
        seq![c]
    } else if c == '\n' {
        seq!['\\', 'n']
    } else if c == '\t' {
        seq!['\\', 't']
    } else if c == '\0' {
        seq!['\\', '0']
    } else if (c as u32) < 0x80 {
        seq!['\\', 'x'] + hexadecimal(c as nat)
    } else {
        seq!['\\', 'u', '{'] + hexadecimal(c as nat) + seq!['}']
    }
}

/// How a text is shown.
pub open spec fn shown_text(text: Seq<char>) -> Seq<char>
    decreases text.len(),
{
    if text.len() == 0 {
        Seq::empty()
    } else {
        shown_text(text.drop_last()) + shown(text.last())
    }
}

/// How a character is shown.
fn show_char(c: char) -> (r: String)
    ensures
        r@ == shown(c),
{
    let mut r = String::new();
    if !c.is_control() {
        r.push(c);
        assert(r@ =~= shown(c));
        return r;
    }
    r.push('\\');
    if c == '\n' {
        r.push('n');
    } else if c == '\t' {
        r.push('t');
    } else if c == '\0' {
        r.push('0');
    } else if (c as u32) < 0x80 {
        r.push('x');
        r.append(hex_text(c as u32).as_str());
    } else {
        r.push('u');
        r.push('{');
        r.append(hex_text(c as u32).as_str());
        r.push('}');
    }
    assert(r@ =~= shown(c));
    r
}

/// Pretty print and escape control characters.
pub fn format_cmd(text: &str) -> (r: String)
    ensures
        r@ == shown_text(text@),
{
    let chars = chars_of(text);
    let mut r = String::new();
    let mut i: usize = 0;
    assert(r@ =~= shown_text(text@.take(0)));
    while i < chars.len()
        invariant
            i <= chars@.len(),
            chars@ == text@,
            r@ == shown_text(text@.take(i as int)),
        decreases chars@.len() - i,
    {
        assert(text@.take(i + 1).drop_last() =~= text@.take(i as int));
        r.append(show_char(chars[i]).as_str());
        i += 1;
    }
    assert(text@.take(i as int) =~= text@);
    r
}

/// A text without control characters is shown as it is.
pub proof fn plain_text_is_shown_as_it_is(text: Seq<char>)
    requires
        forall|i: int| 0 <= i < text.len() ==> !is_control_char(#[trigger] text[i]),
    ensures
        shown_text(text) == text,
    decreases text.len(),
{
    if text.len() > 0 {
        let init = text.drop_last();
        assert forall|i: int| 0 <= i < init.len() implies !is_control_char(#[trigger] init[i]) by {
            assert(init[i] == text[i]);
        }
        plain_text_is_shown_as_it_is(init);
        assert(init + seq![text.last()] =~= text);
    } else {
        assert(text =~= Seq::empty());
    }
}

/// What is shown holds no control characters.
pub proof fn shown_text_has_no_control(text: Seq<char>)
    ensures
        forall|i: int|
            0 <= i < shown_text(text).len() ==> !is_control_char(#[trigger] shown_text(text)[i]),
    decreases text.len(),
{
    if text.len() > 0 {
        let all = shown_text(text);
        let init = shown_text(text.drop_last());
        let c = text.last();
        let code = hexadecimal(c as nat);
        shown_text_has_no_control(text.drop_last());
        lemma_hexadecimal(c as nat);
        assert forall|i: int| 0 <= i < all.len() implies !is_control_char(#[trigger] all[i]) by {
            if i < init.len() {
                assert(all[i] == init[i]);
            } else {
                let k = i - init.len();
                assert(all[i] == shown(c)[k]);
                if is_control_char(c) && c != '\n' && c != '\t' && c != '\0' {
                    if (c as u32) < 0x80 {
                        if k >= 2 {
                            assert(shown(c)[k] == code[k - 2]);
                        }
                    } else if 3 <= k < 3 + code.len() {
                        assert(shown(c)[k] == code[k - 3]);
                    }
                }
            }
        }
    }
}

proof fn lemma_hexadecimal(n: nat)
    ensures
        forall|i: int| 0 <= i < hexadecimal(n).len() ==> !is_control_char(#[trigger] hexadecimal(n)[i]),
    decreases n,
{
    let all = hexadecimal(n);
    if n >= 16 {
        let init = hexadecimal(n / 16);
        lemma_hexadecimal(n / 16);
        assert forall|i: int| 0 <= i < all.len() implies !is_control_char(#[trigger] all[i]) by {
            if i < init.len() {
                assert(all[i] == init[i]);
            }
        }
    }
}

/// The handlers of a MIME type as the log names them.
pub open spec fn reported(map: Associations, mime: Seq<char>) -> Seq<char> {
    if map.contains_key(mime) && map[mime].len() > 0 {
        list_text(map[mime])
    } else {
        "<None>"@
    }
}

impl MimeApps {
    /// The message on a change in the handlers that are set for a MIME type.
    pub fn log_handler_change(&self, mime: &Mime) -> (r: String)
        requires
            self.wf(),
        ensures
            r@ == "New handlers for `"@ + mime@ + "`: "@ + reported(self@.default_apps, mime@),
    {
        let handlers = match self.default_apps.get(mime) {
            Some(list) => if list.is_empty() {
                "<None>".to_owned()
            } else {
                list.to_text()
            },
            None => "<None>".to_owned(),
        };
        let mut r = "New handlers for `".to_owned();
        r.append(mime.as_str());
        r.append("`: ");
        r.append(handlers.as_str());
        r
    }
}

/// A text is shown character by character.
pub proof fn a_text_is_shown_character_by_character(front: Seq<char>, c: char)
    ensures
        shown_text(Seq::empty()) == Seq::<char>::empty(),
        shown_text(front.push(c)) == shown_text(front) + shown_text(seq![c]),
{
    reveal_with_fuel(shown_text, 2);
    assert(front.push(c).drop_last() =~= front);
    assert(seq![c].drop_last() =~= Seq::empty());
    assert(shown_text(seq![c]) =~= shown(c));
}

/// The number that hexadecimal digits spell.
pub open spec fn hex_number_of(digits: Seq<char>) -> int
    decreases digits.len(),
{
    if digits.len() == 0 {
        0
    } else {
        let c = digits.last();
        16 * hex_number_of(digits.drop_last()) + if c <= '9' {
            c as int - '0' as int
        } else {
            c as int - 'a' as int + 10
        }
    }
}

/// The hexadecimal notation of a number spells the number.
pub proof fn hexadecimal_spells_the_number(n: nat)
    ensures
        hex_number_of(hexadecimal(n)) == n,
        hexadecimal(n).len() > 1 ==> hexadecimal(n)[0] != '0',
    decreases n,
{
    let all = hexadecimal(n);
    if n < 16 {
        assert(all.drop_last() =~= Seq::empty());
        assert(hex_number_of(all.drop_last()) == 0);
    } else {
        let init = hexadecimal(n / 16);
        hexadecimal_spells_the_number(n / 16);
        assert(all.drop_last() =~= init);
        assert(init.len() > 0);
        assert(all[0] == init[0]);
        if init.len() == 1 {
            reveal_with_fuel(hex_number_of, 2);
            assert(init.drop_last() =~= Seq::empty());
        }
    }
}

/// How a control character is shown: a line feed, a tab and a null character by
/// their letters, the others by their number.
pub proof fn control_characters_are_shown_by_letter_or_number(c: char)
    requires
        is_control_char(c),
    ensures
        c == '\n' ==> shown_text(seq![c]) == seq!['\\', 'n'],
        c == '\t' ==> shown_text(seq![c]) == seq!['\\', 't'],
        c == '\0' ==> shown_text(seq![c]) == seq!['\\', '0'],
        c != '\n' && c != '\t' && c != '\0' && (c as u32) < 0x80 ==> shown_text(seq![c]) == seq![
            '\\',
            'x',
        ] + hexadecimal(c as nat),
        (c as u32) >= 0x80 ==> shown_text(seq![c]) == seq!['\\', 'u', '{'] + hexadecimal(c as nat)
            + seq!['}'],
{
    reveal_with_fuel(shown_text, 2);
    assert(seq![c].drop_last() =~= Seq::empty());
    assert(shown_text(seq![c]) =~= shown(c));
}

/// The log names the handlers of a MIME type as they are saved, and says so where
/// there are none.
pub proof fn the_log_names_the_handlers(map: Associations, mime: Seq<char>)
    ensures
        map.contains_key(mime) && map[mime].len() > 0 ==> reported(map, mime) == list_text(
            map[mime],
        ),
        !map.contains_key(mime) || map[mime].len() == 0 ==> reported(map, mime) == "<None>"@,
{
}

} // verus!
