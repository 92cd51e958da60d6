use vstd::prelude::*;
use vstd::string::StringExecFns;

use crate::report::{chars_to_string, digits, push_digits};

verus! {

/// A progress bar over `total` steps: how many are done and the message shown
/// after them.
pub struct ProgressBar {
    total: u64,
    pos: u64,
    message: String,
}

/// `n` copies of `c`.
pub open spec fn repeated(c: char, n: nat) -> Seq<char> {
    Seq::new(n, |i: int| c)
}

/// The text after the bar: the steps done, the total and the message.
pub open spec fn suffix_text(pos: u64, total: u64, message: Seq<char>) -> Seq<char> {
    seq![' '] + digits(pos as nat) + seq!['/'] + digits(total as nat) + seq![' ', '|', ' ', 's', 'a', 'v', 'e', 'd', ' ']
        + message + seq![' ']
}

/// The width of the bar: what the terminal width leaves beside the suffix
/// (`suffix_len` bytes) and the brackets, at least 1.
pub open spec fn bar_width(width: int, suffix_len: int) -> int {
    let w = width - (suffix_len + 2);
    if w < 1 {
        1
    } else {
        w
    }
}

/// How much of the bar is filled.
pub open spec fn filled_width(bw: int, pos: int, total: int) -> int {
    if total == 0 {
        bw
    } else if (bw * pos) / total < bw {
        (bw * pos) / total
    } else {
        bw
    }
}

/// The line that draws the bar: a carriage return, the bar in brackets (cyan
/// `=` for the steps done, a `>` head while unfinished, blue `-` for the
/// rest), the suffix, and the code that clears the rest of the line.
pub open spec fn bar_line(width: int, pos: u64, total: u64, message: Seq<char>) -> Seq<char> {
    let suffix = suffix_text(pos, total, message);
    let bw = bar_width(width, vstd::utf8::encode_utf8(suffix).len() as int);
    let filled = filled_width(bw, pos as int, total as int);
    let head = pos < total && filled < bw;
    let empty = bw - filled - (if head {
        1int
    } else {
        0int
    });
    seq!['\r', '['] + seq!['\x1b', '[', '3', '6', 'm'] + repeated('=', filled as nat) + (if head {
        seq!['>']
    } else {
        Seq::empty()
    }) + seq!['\x1b', '[', '0', 'm'] + seq!['\x1b', '[', '3', '4', 'm'] + repeated('-', empty as nat) + seq![
        '\x1b',
        '[',
        '0',
        'm',
    ] + seq![']'] + suffix + seq!['\x1b', '[', 'K']
}

impl ProgressBar {
    /// The number of steps.
    pub closed spec fn spec_total(&self) -> u64 {
        self.total
    }

    /// The number of steps done.
    pub closed spec fn spec_pos(&self) -> u64 {
        self.pos
    }

    /// The message shown after the steps.
    pub closed spec fn spec_message(&self) -> Seq<char> {
        self.message@
    }

    /// A bar over `total` steps, none of them done, with no message.
    pub fn new(total: u64) -> (r: Self)
        ensures
            r.spec_total() == total,
            r.spec_pos() == 0,
            r.spec_message() == Seq::<char>::empty(),
    {
        ProgressBar { total, pos: 0, message: String::new() }
    }

    /// One more step done (never more than the total), with a new message
    /// when one is given.
    pub fn inc(&mut self, message: Option<String>)
        ensures
            final(self).spec_total() == old(self).spec_total(),
            final(self).spec_pos() == if old(self).spec_pos() < old(self).spec_total() {
                old(self).spec_pos() + 1
            } else {
                old(self).spec_total() as int
            },
            final(self).spec_message() == match message {
                Some(m) => m@,
                None => old(self).spec_message(),
            },
    {
        self.pos = if self.pos < self.total {
            self.pos + 1
        } else {
            self.total
        };
        if let Some(m) = message {
            self.message = m;
        }
    }

    /// The line that draws the bar on a terminal `width` columns wide.
    pub fn render(&self, width: usize) -> (r: String)
        requires
            vstd::utf8::encode_utf8(suffix_text(self.spec_pos(), self.spec_total(), self.spec_message())).len() + 2
                <= usize::MAX,
            bar_width(
                width as int,
                vstd::utf8::encode_utf8(suffix_text(self.spec_pos(), self.spec_total(), self.spec_message())).len() as int,
            ) * self.spec_pos() <= u64::MAX,
        ensures
            r@ == bar_line(width as int, self.spec_pos(), self.spec_total(), self.spec_message()),
    {
        let suffix = suffix_string(self.pos, self.total, &self.message);
        let suffix_len = suffix.as_str().len();
        let (filled, has_head, empty_len) = bar_geometry(width, suffix_len, self.pos, self.total);
        let bar = bar_chars(filled, has_head, empty_len);
        let mut line = chars_to_string(bar);
        line.append(suffix.as_str());
        let clear = "\x1b[K";
        proof {
            reveal_strlit("\x1b[K");
        }
        line.append(clear);
        assert(line@ =~= bar_line(width as int, self.pos, self.total, self.message@));
        line
    }
}

/// The suffix as a string.
fn suffix_string(pos: u64, total: u64, message: &String) -> (r: String)
    ensures
        r@ == suffix_text(pos, total, message@),
{
    let mut head_chars: Vec<char> = Vec::new();
    head_chars.push(' ');
    push_digits(&mut head_chars, pos);
    head_chars.push('/');
    push_digits(&mut head_chars, total);
    head_chars.push(' ');
    head_chars.push('|');
    head_chars.push(' ');
    head_chars.push('s');
    head_chars.push('a');
    head_chars.push('v');
    head_chars.push('e');
    head_chars.push('d');
    head_chars.push(' ');
    let mut suffix = chars_to_string(head_chars);
    suffix.append(message.as_str());
    let blank = " ";
    proof {
        reveal_strlit(" ");
    }
    suffix.append(blank);
    assert(suffix@ =~= suffix_text(pos, total, message@));
    suffix
}

/// How much of the bar is filled, whether it has a head, and how much of it
/// is empty.
fn bar_geometry(width: usize, suffix_len: usize, pos: u64, total: u64) -> (r: (usize, bool, usize))
    requires
        suffix_len + 2 <= usize::MAX,
        bar_width(width as int, suffix_len as int) * pos <= u64::MAX,
    ensures
        ({
            let bw = bar_width(width as int, suffix_len as int);
            let filled = filled_width(bw, pos as int, total as int);
            let head = pos < total && filled < bw;
            &&& r.0 == filled
            &&& r.1 == head
            &&& r.2 == bw - filled - (if head {
                1int
            } else {
                0int
            })
        }),
{
    let bw = if width > suffix_len + 2 {
        width - (suffix_len + 2)
    } else {
        1
    };
    assert(bw == bar_width(width as int, suffix_len as int));
    let filled: usize = if total == 0 {
        bw
    } else {
        let f = (bw as u64 * pos) / total;
        if f < bw as u64 {
            f as usize
        } else {
            bw
        }
    };
    let has_head = pos < total && filled < bw;
    let head_len: usize = if has_head {
        1
    } else {
        0
    };
    (filled, has_head, bw - filled - head_len)
}

/// The bar in brackets, after a carriage return.
fn bar_chars(filled: usize, has_head: bool, empty_len: usize) -> (r: Vec<char>)
    ensures
        r@ == seq!['\r', '['] + seq!['\x1b', '[', '3', '6', 'm'] + repeated('=', filled as nat) + (if has_head {
            seq!['>']
        } else {
            Seq::empty()
        }) + seq!['\x1b', '[', '0', 'm'] + seq!['\x1b', '[', '3', '4', 'm'] + repeated('-', empty_len as nat) + seq![
            '\x1b',
            '[',
            '0',
            'm',
        ] + seq![']'],
{
    let mut bar: Vec<char> = Vec::new();
    bar.push('\r');
    bar.push('[');
    bar.push('\x1b');
    bar.push('[');
    bar.push('3');
    bar.push('6');
    bar.push('m');
    let ghost start = bar@;
    let mut i: usize = 0;
    while i < filled
        invariant
            i <= filled,
            bar@ == start + repeated('=', i as nat),
        decreases filled - i,
    {
        bar.push('=');
        i += 1;
        assert(bar@ =~= start + repeated('=', i as nat));
    }
    if has_head {
        bar.push('>');
    }
    bar.push('\x1b');
    bar.push('[');
    bar.push('0');
    bar.push('m');
    bar.push('\x1b');
    bar.push('[');
    bar.push('3');
    bar.push('4');
    bar.push('m');
    let ghost middle = bar@;
    let mut i: usize = 0;
    while i < empty_len
        invariant
            i <= empty_len,
            bar@ == middle + repeated('-', i as nat),
        decreases empty_len - i,
    {
        bar.push('-');
        i += 1;
        assert(bar@ =~= middle + repeated('-', i as nat));
    }
    bar.push('\x1b');
    bar.push('[');
    bar.push('0');
    bar.push('m');
    bar.push(']');
    bar
}

} // verus!
