use vstd::prelude::*;
use vstd::string::StrSliceExecFns;
use vstd::utf8::encode_utf8;

pub mod frame;
pub mod handler;
pub mod table;

verus! {

/// The reply that reports an error: `-ERR <message>\r\n`.
pub open spec fn error_reply(message: Seq<char>) -> Seq<char> {
    "-ERR "@ + message + "\r\n"@
}

/// The reply that reports a simple status: `+<message>\r\n`.
pub open spec fn status_reply(message: Seq<char>) -> Seq<char> {
    "+"@ + message + "\r\n"@
}

/// Encodes `message` as an error reply.
pub fn encode_error(message: &str) -> (r: String)
    ensures
        r@ == error_reply(message@),
{
    let mut r = String::from_str("-ERR ");
    r.append(message);
    r.append("\r\n");
    r
}

/// Encodes `message` as a simple-status reply.
pub fn encode_simple_string(message: &str) -> (r: String)
    ensures
        r@ == status_reply(message@),
{
    let mut r = String::from_str("+");
    r.append(message);
    r.append("\r\n");
    r
}

/// The character of the decimal digit `d`.
pub open spec fn digit_char(d: nat) -> char {
    seq!['0', '1', '2', '3', '4', '5', '6', '7', '8', '9'][d as int]
}

/// The decimal notation of `n`, without leading zeros.
pub open spec fn decimal(n: nat) -> Seq<char>
    decreases n,
{
    if n < 10 {
        seq![digit_char(n)]
    } else {
        decimal(n / 10).push(digit_char(n % 10))
    }
}

/// The characters that separate words: ASCII white space as `u8::is_ascii_whitespace` has it.
pub open spec fn is_word_space(c: char) -> bool {
    c == ' ' || c == '\t' || c == '\n' || c == '\x0C' || c == '\r'
}

/// The maximal runs of non-separator characters of `s`, in order.
pub open spec fn words(s: Seq<char>) -> Seq<Seq<char>>
    decreases s.len(),
{
    if s.len() == 0 {
        Seq::empty()
    } else {
        let ws = words(s.drop_last());
        let c = s.last();
        if is_word_space(c) {
            ws
        } else if s.len() >= 2 && !is_word_space(s[s.len() - 2]) {
            ws.update(ws.len() - 1, ws.last().push(c))
        } else {
            ws.push(seq![c])
        }
    }
}

/// One bulk string: `$<byte length>\r\n<word>\r\n`.
pub open spec fn bulk_item(w: Seq<char>) -> Seq<char> {
    "$"@ + decimal(encode_utf8(w).len()) + "\r\n"@ + w + "\r\n"@
}

pub open spec fn bulk_items(ws: Seq<Seq<char>>) -> Seq<char>
    decreases ws.len(),
{
    if ws.len() == 0 {
        Seq::empty()
    } else {
        bulk_items(ws.drop_last()) + bulk_item(ws.last())
    }
}

/// An array of bulk strings: `*<count>\r\n` and then each of them.
pub open spec fn array_reply(ws: Seq<Seq<char>>) -> Seq<char> {
    "*"@ + decimal(ws.len()) + "\r\n"@ + bulk_items(ws)
}

fn digit_str(d: usize) -> (r: &'static str)
    requires
        d < 10,
    ensures
        r@ == seq![digit_char(d as nat)],
{
    proof {
        reveal_strlit("0");
        reveal_strlit("1");
        reveal_strlit("2");
        reveal_strlit("3");
        reveal_strlit("4");
        reveal_strlit("5");
        reveal_strlit("6");
        reveal_strlit("7");
        reveal_strlit("8");
        reveal_strlit("9");
    }
    let r = match d {
        0 => "0",
        1 => "1",
        2 => "2",
        3 => "3",
        4 => "4",
        5 => "5",
        6 => "6",
        7 => "7",
        8 => "8",
        _ => "9",
    };
    assert(r@ =~= seq![digit_char(d as nat)]);
    r
}

/// The decimal notation of `n`.
pub fn decimal_string(n: usize) -> (r: String)
    ensures
        r@ == decimal(n as nat),
    decreases n,
{
    if n < 10 {
        String::from_str(digit_str(n))
    } else {
        let mut r = decimal_string(n / 10);
        r.append(digit_str(n % 10));
        r
    }
}

/// Encodes the white-space separated words of `message` as an array of bulk strings.
pub fn encode_as_array(message: &str) -> (r: String)
    ensures
        r@ == array_reply(words(message@)),
{
    let ghost s = message@;
    let n = message.unicode_len();
    let mut bounds: Vec<(usize, usize)> = Vec::new();
    let mut i: usize = 0;
    while i < n
        invariant
            n == s.len(),
            s == message@,
            i <= n,
            bounds@.len() == words(s.subrange(0, i as int)).len(),
            forall|j: int|
                0 <= j < bounds@.len() ==> {
                    &&& 0 <= (#[trigger] bounds@[j]).0 < bounds@[j].1 <= i
                    &&& s.subrange(bounds@[j].0 as int, bounds@[j].1 as int) == words(
                        s.subrange(0, i as int),
                    )[j]
                },
            i > 0 && !is_word_space(s[i - 1]) ==> bounds@.len() > 0 && bounds@.last().1 == i,
        decreases n - i,
    {
        let c = message.get_char(i);
        let ghost pre = s.subrange(0, i as int);
        let ghost cur = s.subrange(0, i + 1);
        assert(cur.drop_last() =~= pre);
        assert(cur.last() == c);
        if c == ' ' || c == '\t' || c == '\n' || c == '\x0C' || c == '\r' {
        } else if i > 0 && {
            let p = message.get_char(i - 1);
            !(p == ' ' || p == '\t' || p == '\n' || p == '\x0C' || p == '\r')
        } {
            let last = bounds.len() - 1;
            let (a, _) = bounds[last];
            let ghost old_bounds = bounds@;
            bounds.set(last, (a, i + 1));
            assert forall|j: int| 0 <= j < bounds@.len() implies {
                &&& 0 <= (#[trigger] bounds@[j]).0 < bounds@[j].1 <= i + 1
                &&& s.subrange(bounds@[j].0 as int, bounds@[j].1 as int) == words(cur)[j]
            } by {
                if j == last {
                    assert(s.subrange(a as int, i + 1) =~= s.subrange(
                        a as int,
                        i as int,
                    ).push(c));
                }
            }
        } else {
            bounds.push((i, i + 1));
            assert(s.subrange(i as int, i + 1) =~= seq![c]);
        }
        i = i + 1;
    }
    assert(s.subrange(0, n as int) =~= s);
    let ghost ws = words(s);
    let mut r = String::from_str("*");
    r.append(decimal_string(bounds.len()).as_str());
    r.append("\r\n");
    assert(bulk_items(ws.subrange(0, 0)) =~= Seq::<char>::empty());
    assert(r@ =~= "*"@ + decimal(ws.len()) + "\r\n"@ + bulk_items(ws.subrange(0, 0)));
    let mut k: usize = 0;
    while k < bounds.len()
        invariant
            n == s.len(),
            s == message@,
            ws == words(s),
            bounds@.len() == ws.len(),
            k <= bounds@.len(),
            forall|j: int|
                0 <= j < bounds@.len() ==> {
                    &&& 0 <= (#[trigger] bounds@[j]).0 < bounds@[j].1 <= n
                    &&& s.subrange(bounds@[j].0 as int, bounds@[j].1 as int) == ws[j]
                },
            r@ == "*"@ + decimal(ws.len()) + "\r\n"@ + bulk_items(ws.subrange(0, k as int)),
        decreases bounds.len() - k,
    {
        let (a, b) = bounds[k];
        let w = message.substring_char(a, b);
        assert(w@ == ws[k as int]);
        let ghost before = r@;
        let len = w.as_bytes().len();
        assert(len as nat == encode_utf8(w@).len());
        r.append("$");
        r.append(decimal_string(len).as_str());
        r.append("\r\n");
        r.append(w);
        r.append("\r\n");
        assert(ws.subrange(0, k + 1).drop_last() =~= ws.subrange(0, k as int));
        assert(bulk_items(ws.subrange(0, k + 1)) == bulk_items(ws.subrange(0, k as int))
            + bulk_item(ws[k as int]));
        assert(r@ =~= before + bulk_item(ws[k as int]));
        k = k + 1;
    }
    assert(ws.subrange(0, k as int) =~= ws);
    r
}

} // verus!
