//! Layout of the daily lunch menu: greedy word wrapping to the paper width
//! and dotted price leaders.
use vstd::prelude::*;
use crate::graphics::{Bitmap, BitmapModel};
use crate::job::{Align, OpModel, PrintOp, IMAGE_BAND_FEED, IMAGE_MODE, image_ops, ops_view, push_image, push_op, push_strings, write_lines};
use crate::strings::{
    chars_of, free_of, is_whitespace, join_with, lemma_join_concat, lemma_strings_view_push,
    lemma_strings_view_update, lemma_words, push_char, push_chars, push_str, split_whitespace,
    str_eq, string_from_chars, strings_view, words,
};

verus! {

/// Characters per printed line.
pub const WIDTH: usize = 40;

/// The lines that greedy wrapping makes of `ws` at `width`, where `lines` are
/// already finished and `cur` is the line being filled.
pub open spec fn wrap_from(ws: Seq<Seq<char>>, width: nat, lines: Seq<Seq<char>>, cur: Seq<char>) -> Seq<Seq<char>>
    decreases ws.len(),
{
    if ws.len() == 0 {
        if cur.len() == 0 {
            lines
        } else {
            lines.push(cur)
        }
    } else {
        let w = ws[0];
        if cur.len() == 0 {
            wrap_from(ws.drop_first(), width, lines, w)
        } else if cur.len() + 1 + w.len() <= width {
            wrap_from(ws.drop_first(), width, lines, cur + seq![' '] + w)
        } else {
            wrap_from(ws.drop_first(), width, lines.push(cur), w)
        }
    }
}

/// The lines of `text` wrapped greedily at `width` characters: words are
/// joined by single spaces, and a word moves to a new line when it would not
/// fit on the current one. A word longer than `width` stands on a line of its
/// own.
pub open spec fn wrapped(text: Seq<char>, width: nat) -> Seq<Seq<char>> {
    wrap_from(words(text), width, Seq::empty(), Seq::empty())
}

/// `n` dots.
pub open spec fn dots(n: nat) -> Seq<char> {
    Seq::new(n, |_i: int| '.')
}

/// The lines of a menu item: its name wrapped at [`WIDTH`] (one empty line for
/// an empty name), with the price, where there is one, right-aligned behind a
/// dotted leader: on the last line where it fits with at least two dots
/// before it, else on a line of its own.
pub open spec fn item_lines(name: Seq<char>, price: Option<Seq<char>>) -> Seq<Seq<char>> {
    let wrapped = wrapped(name, WIDTH as nat);
    let lines = if wrapped.len() == 0 {
        seq![Seq::<char>::empty()]
    } else {
        wrapped
    };
    match price {
        None => lines,
        Some(p) => {
            let last = lines.last();
            if last.len() + p.len() + 2 <= WIDTH {
                lines.update(
                    lines.len() - 1,
                    last + dots((WIDTH - last.len() - p.len() - 1) as nat) + seq![' '] + p,
                )
            } else {
                let n: int = if p.len() + 1 <= WIDTH {
                    WIDTH - (p.len() + 1)
                } else {
                    0
                };
                lines.push(dots(n as nat) + seq![' '] + p)
            }
        },
    }
}

/// Wrap `text` greedily into lines of at most `width` characters (see
/// [`wrapped`]).
pub fn wrap(text: &str, width: usize) -> (lines: Vec<String>)
    ensures
        strings_view(lines@) == wrapped(text@, width as nat),
{
    let chars = chars_of(text);
    let ws = split_whitespace(chars.as_slice());
    let ghost wsv = ws@.map_values(|w: Vec<char>| w@);
    let mut lines: Vec<String> = Vec::new();
    let mut cur: Vec<char> = Vec::new();
    let mut i: usize = 0;
    assert(wsv.skip(0) =~= wsv);
    assert(strings_view(lines@) =~= Seq::<Seq<char>>::empty());
    assert(cur@ =~= Seq::<char>::empty());
    while i < ws.len()
        invariant
            i <= ws.len(),
            wsv == ws@.map_values(|w: Vec<char>| w@),
            wsv == words(text@),
            wrapped(text@, width as nat) == wrap_from(
                wsv.skip(i as int),
                width as nat,
                strings_view(lines@),
                cur@,
            ),
        decreases ws.len() - i,
    {
        let w = &ws[i];
        let ghost before = strings_view(lines@);
        assert(wsv.skip(i as int)[0] == w@);
        assert(wsv.skip(i as int).drop_first() =~= wsv.skip(i + 1));
        let ghost rest = wsv.skip(i + 1);
        let ghost cur0 = cur@;
        if cur.len() == 0 {
            assert(wrap_from(wsv.skip(i as int), width as nat, before, cur0) == wrap_from(rest, width as nat, before, w@));
            cur = w.clone();
            assert(cur@ =~= w@);
        } else if w.len() <= width && cur.len() < width - w.len() {
            assert(wrap_from(wsv.skip(i as int), width as nat, before, cur0) == wrap_from(rest, width as nat, before, cur0 + seq![' '] + w@));
            cur.push(' ');
            let mut j: usize = 0;
            let ghost base = cur@;
            while j < w.len()
                invariant
                    j <= w.len(),
                    cur@ == base + w@.take(j as int),
                decreases w.len() - j,
            {
                cur.push(w[j]);
                assert(w@.take(j + 1) =~= w@.take(j as int).push(w@[j as int]));
                j = j + 1;
            }
            assert(w@.take(w.len() as int) =~= w@);
            assert(cur@ =~= cur0 + seq![' '] + w@);
        } else {
            assert(wrap_from(wsv.skip(i as int), width as nat, before, cur0) == wrap_from(rest, width as nat, before.push(cur0), w@));
            let line = string_from_chars(cur.as_slice());
            proof {
                lemma_strings_view_push(lines@, line);
            }
            lines.push(line);
            cur = w.clone();
            assert(cur@ =~= w@);
        }
        i = i + 1;
    }
    if cur.len() > 0 {
        let ghost before = strings_view(lines@);
        let line = string_from_chars(cur.as_slice());
        proof {
            lemma_strings_view_push(lines@, line);
        }
        lines.push(line);
    }
    lines
}

/// Appends `n` dots to `s`.
fn push_dots(s: &mut String, n: usize)
    ensures
        final(s)@ == old(s)@ + dots(n as nat),
{
    let mut i: usize = 0;
    while i < n
        invariant
            i <= n,
            s@ == old(s)@ + dots(i as nat),
        decreases n - i,
    {
        push_char(s, '.');
        assert(dots((i + 1) as nat) =~= dots(i as nat).push('.'));
        i = i + 1;
    }
}

/// Lay out a menu item: its wrapped name with the price, where there is one,
/// right-aligned behind a dotted leader (see [`item_lines`]).
pub fn format_item(name: &str, price: Option<&str>) -> (lines: Vec<String>)
    ensures
        strings_view(lines@) == item_lines(
            name@,
            match price {
                Some(p) => Some(p@),
                None => None,
            },
        ),
{
    let mut lines = wrap(name, WIDTH);
    if lines.len() == 0 {
        let e = String::new();
        proof {
            lemma_strings_view_push(lines@, e);
        }
        lines.push(e);
        assert(strings_view(lines@) =~= seq![Seq::<char>::empty()]);
    }
    let ghost base = strings_view(lines@);
    let price = match price {
        None => {
            return lines;
        },
        Some(p) => p,
    };
    let price_chars = chars_of(price);
    let price_len = price_chars.len();
    let last_idx = lines.len() - 1;
    let last_chars = chars_of(lines[last_idx].as_str());
    let last_len = last_chars.len();
    if last_len <= WIDTH && price_len <= WIDTH - last_len && 2 <= WIDTH - last_len - price_len {
        let n_dots = WIDTH - last_len - price_len;
        assert(last_chars@ == base[last_idx as int]);
        assert(base.len() == lines.len());
        let mut line = string_from_chars(last_chars.as_slice());
        push_dots(&mut line, n_dots - 1);
        push_char(&mut line, ' ');
        push_chars(&mut line, price_chars.as_slice());
        assert(line@ == base.last() + dots((n_dots - 1) as nat) + seq![' '] + price@);
        proof {
            lemma_strings_view_update(lines@, last_idx as int, line);
        }
        lines.set(last_idx, line);
        assert(strings_view(lines@) =~= base.update(
            last_idx as int,
            base.last() + dots((n_dots - 1) as nat) + seq![' '] + price@,
        ));
    } else {
        let n_dots = if price_len < WIDTH {
            WIDTH - (price_len + 1)
        } else {
            0
        };
        let mut line = String::new();
        push_dots(&mut line, n_dots);
        push_char(&mut line, ' ');
        push_chars(&mut line, price_chars.as_slice());
        assert(line@ =~= dots(n_dots as nat) + seq![' '] + price@);
        proof {
            lemma_strings_view_push(lines@, line);
        }
        lines.push(line);
        assert(strings_view(lines@) =~= base.push(dots(n_dots as nat) + seq![' '] + price@));
    }
    lines
}

/// A dish of a restaurant's menu.
pub struct MenuItem {
    pub name: String,
    pub price: Option<String>,
}

/// A restaurant of the menu feed.
pub struct Restaurant {
    pub name: String,
}

/// What the menu feed says of one restaurant: `status` is `ok` where its
/// menu could be read.
pub struct MenuResult {
    pub restaurant: Restaurant,
    pub status: String,
    pub items: Vec<MenuItem>,
}

/// The daily menu feed.
pub struct RawData {
    pub date: String,
    pub results: Vec<MenuResult>,
}

/// The text of the price of a dish, where it has one.
pub open spec fn price_view(p: Option<String>) -> Option<Seq<char>> {
    match p {
        Some(s) => Some(s@),
        None => None,
    }
}

/// The lines of all dishes of `items`, in order.
pub open spec fn items_ops(items: Seq<MenuItem>) -> Seq<OpModel>
    decreases items.len(),
{
    if items.len() == 0 {
        Seq::empty()
    } else {
        items_ops(items.drop_last()) + write_lines(
            item_lines(items.last().name@, price_view(items.last().price)),
        )
    }
}

/// The operations that print one restaurant: its name wrapped and in bold,
/// then its status where it is not `ok`, `(no items)` where it has no dish,
/// else the lines of its dishes; then a line feed.
pub open spec fn result_ops(r: MenuResult) -> Seq<OpModel> {
    seq![OpModel::Bold(true)] + write_lines(wrapped(r.restaurant.name@, WIDTH as nat)) + seq![
        OpModel::Bold(false),
    ] + (if r.status@ != "ok"@ {
        seq![OpModel::WriteLine("  ("@ + r.status@ + ")"@)]
    } else if r.items@.len() == 0 {
        seq![OpModel::WriteLine("  (no items)"@)]
    } else {
        items_ops(r.items@)
    }) + seq![OpModel::Feed]
}

/// The operations that print every restaurant of `rs`, in order.
pub open spec fn results_ops(rs: Seq<MenuResult>) -> Seq<OpModel>
    decreases rs.len(),
{
    if rs.len() == 0 {
        Seq::empty()
    } else {
        results_ops(rs.drop_last()) + result_ops(rs.last())
    }
}

/// The operations that print the menu: a centred bold title with the date,
/// every restaurant, the mascot's picture, then a cut.
pub open spec fn menu_ops(data: RawData, mascot: BitmapModel) -> Seq<OpModel> {
    seq![
        OpModel::Init,
        OpModel::Justify(Align::Center),
        OpModel::Bold(true),
        OpModel::WriteLine("Menu "@ + data.date@),
        OpModel::Bold(false),
        OpModel::Justify(Align::Left),
        OpModel::Feed,
    ] + results_ops(data.results@) + image_ops(mascot, IMAGE_MODE, IMAGE_BAND_FEED) + seq![OpModel::PrintCut]
}

/// Appends the lines of the dishes of `items` to `ops`.
fn push_items(ops: &mut Vec<PrintOp>, items: &Vec<MenuItem>)
    ensures
        ops_view(final(ops)@) == ops_view(old(ops)@) + items_ops(items@),
{
    let mut i: usize = 0;
    while i < items.len()
        invariant
            i <= items.len(),
            ops_view(ops@) == ops_view(old(ops)@) + items_ops(items@.take(i as int)),
        decreases items.len() - i,
    {
        let item = &items[i];
        let lines = match &item.price {
            Some(p) => format_item(item.name.as_str(), Some(p.as_str())),
            None => format_item(item.name.as_str(), None),
        };
        assert(items@.take(i + 1).drop_last() =~= items@.take(i as int));
        push_strings(ops, &lines);
        i = i + 1;
    }
    assert(items@.take(items.len() as int) =~= items@);
}

/// Appends the operations that print restaurant `r` to `ops`.
fn push_result(ops: &mut Vec<PrintOp>, r: &MenuResult)
    ensures
        ops_view(final(ops)@) == ops_view(old(ops)@) + result_ops(*r),
{
    let ghost start = ops_view(ops@);
    push_op(ops, PrintOp::Bold(true));
    push_strings(ops, &wrap(r.restaurant.name.as_str(), WIDTH));
    push_op(ops, PrintOp::Bold(false));
    if !str_eq(r.status.as_str(), "ok") {
        let mut line = String::new();
        push_str(&mut line, "  (");
        push_str(&mut line, r.status.as_str());
        push_str(&mut line, ")");
        push_op(ops, PrintOp::WriteLine(line));
    } else if r.items.len() == 0 {
        let mut line = String::new();
        push_str(&mut line, "  (no items)");
        push_op(ops, PrintOp::WriteLine(line));
    } else {
        push_items(ops, &r.items);
    }
    push_op(ops, PrintOp::Feed);
    assert(ops_view(ops@) =~= start + result_ops(*r));
}

/// The whole print job of the daily menu: the title, each restaurant with its
/// dishes and their prices, finished off with the mascot, then a cut (see
/// [`menu_ops`]).
pub fn menu_job(data: &RawData, mascot: &Bitmap) -> (ops: Vec<PrintOp>)
    ensures
        ops_view(ops@) == menu_ops(*data, mascot@),
{
    let mut ops: Vec<PrintOp> = Vec::new();
    assert(ops_view(ops@) =~= Seq::<OpModel>::empty());
    push_op(&mut ops, PrintOp::Init);
    push_op(&mut ops, PrintOp::Justify(Align::Center));
    push_op(&mut ops, PrintOp::Bold(true));
    let mut title = String::new();
    push_str(&mut title, "Menu ");
    push_str(&mut title, data.date.as_str());
    push_op(&mut ops, PrintOp::WriteLine(title));
    push_op(&mut ops, PrintOp::Bold(false));
    push_op(&mut ops, PrintOp::Justify(Align::Left));
    push_op(&mut ops, PrintOp::Feed);
    let ghost head = ops_view(ops@);
    let mut i: usize = 0;
    while i < data.results.len()
        invariant
            i <= data.results.len(),
            ops_view(ops@) == head + results_ops(data.results@.take(i as int)),
        decreases data.results.len() - i,
    {
        assert(data.results@.take(i + 1).drop_last() =~= data.results@.take(i as int));
        push_result(&mut ops, &data.results[i]);
        i = i + 1;
    }
    assert(data.results@.take(data.results.len() as int) =~= data.results@);
    push_image(&mut ops, mascot, IMAGE_MODE, IMAGE_BAND_FEED);
    push_op(&mut ops, PrintOp::PrintCut);
    assert(ops_view(ops@) =~= menu_ops(*data, mascot@));
    ops
}

/// Words joined by single spaces.
pub open spec fn join_words(ws: Seq<Seq<char>>) -> Seq<char> {
    join_with(ws, ' ')
}

/// `a + [x + " " + y] + b` and `a + [x, y] + b` join to the same text.
proof fn lemma_join_merge(a: Seq<Seq<char>>, x: Seq<char>, y: Seq<char>, b: Seq<Seq<char>>)
    ensures
        join_words(a + seq![x + seq![' '] + y] + b) == join_words(a + seq![x, y] + b),
{
    let merged = seq![x + seq![' '] + y] + b;
    let split = seq![x, y] + b;
    assert(join_words(merged) == join_words(split)) by {
        assert(split.drop_first() =~= seq![y] + b);
        if b.len() > 0 {
            assert(merged.drop_first() =~= b);
            assert(merged[0] == x + seq![' '] + y);
            assert(join_words(merged) == (x + seq![' '] + y) + seq![' '] + join_words(b));
            lemma_join_concat(seq![y], b, ' ');
            assert(join_words(seq![y]) == y);
            assert(split[0] == x);
            assert(join_words(split) == x + seq![' '] + join_words(seq![y] + b));
            assert(join_words(seq![y] + b) == y + seq![' '] + join_words(b));
            assert((x + seq![' '] + y) + seq![' '] + join_words(b) =~= x + seq![' '] + (y + seq![
                ' ',
            ] + join_words(b)));
        } else {
            assert(merged =~= seq![x + seq![' '] + y]);
            assert(split =~= seq![x, y]);
            assert(seq![x, y].drop_first() =~= seq![y]);
            assert(join_with(seq![y], ' ') == y);
            assert(join_with(merged, ' ') == x + seq![' '] + y);
            assert(join_with(split, ' ') == x + seq![' '] + join_with(seq![y], ' '));
        }
        assert(join_words(merged) =~= join_words(split));
    }
    if a.len() > 0 {
        lemma_join_concat(a, merged, ' ');
        lemma_join_concat(a, split, ' ');
        assert(a + seq![x + seq![' '] + y] + b =~= a + merged);
        assert(a + seq![x, y] + b =~= a + split);
    } else {
        assert(a + seq![x + seq![' '] + y] + b =~= merged);
        assert(a + seq![x, y] + b =~= split);
    }
}

/// A line that fits `width` or holds a single word.
pub open spec fn good_line(l: Seq<char>, width: nat) -> bool {
    &&& l.len() > 0
    &&& (l.len() <= width || free_of(l, |c: char| is_whitespace(c)))
}

/// The `cur` line as a sequence of at most one line.
spec fn pending(cur: Seq<char>) -> Seq<Seq<char>> {
    if cur.len() == 0 {
        Seq::empty()
    } else {
        seq![cur]
    }
}

proof fn lemma_wrap_from(ws: Seq<Seq<char>>, width: nat, lines: Seq<Seq<char>>, cur: Seq<char>)
    requires
        forall|k: int| 0 <= k < ws.len() ==> (#[trigger] ws[k]).len() > 0 && free_of(ws[k], |c: char| is_whitespace(c)),
        forall|k: int| 0 <= k < lines.len() ==> good_line(#[trigger] lines[k], width),
        cur.len() > 0 ==> good_line(cur, width),
    ensures
        join_words(wrap_from(ws, width, lines, cur)) == join_words(lines + pending(cur) + ws),
        forall|k: int|
            0 <= k < wrap_from(ws, width, lines, cur).len() ==> good_line(
                #[trigger] wrap_from(ws, width, lines, cur)[k],
                width,
            ),
    decreases ws.len(),
{
    if ws.len() == 0 {
        assert(lines + pending(cur) + ws =~= wrap_from(ws, width, lines, cur));
    } else {
        let w = ws[0];
        let rest = ws.drop_first();
        assert(ws =~= seq![w] + rest);
        if cur.len() == 0 {
            lemma_wrap_from(rest, width, lines, w);
            assert(lines + pending(w) + rest =~= lines + pending(cur) + ws);
        } else if cur.len() + 1 + w.len() <= width {
            let c2 = cur + seq![' '] + w;
            lemma_wrap_from(rest, width, lines, c2);
            assert(lines + pending(c2) + rest =~= lines + seq![cur + seq![' '] + w] + rest);
            lemma_join_merge(lines, cur, w, rest);
            assert(lines + seq![cur, w] + rest =~= lines + pending(cur) + ws);
        } else {
            let l2 = lines.push(cur);
            assert forall|k: int| 0 <= k < l2.len() implies good_line(#[trigger] l2[k], width) by {
                if k < lines.len() {
                    assert(l2[k] == lines[k]);
                }
            }
            lemma_wrap_from(rest, width, l2, w);
            assert(l2 + pending(w) + rest =~= lines + pending(cur) + ws);
        }
    }
}

/// Wrapping keeps every word, in order: the lines joined by spaces are the
/// words of the text joined by spaces.
pub proof fn law_wrap_keeps_words(text: Seq<char>, width: nat)
    ensures
        join_words(wrapped(text, width)) == join_words(words(text)),
{
    lemma_words(text);
    lemma_wrap_from(words(text), width, Seq::empty(), Seq::empty());
    assert(Seq::<Seq<char>>::empty() + pending(Seq::empty()) + words(text) =~= words(text));
}

/// No wrapped line is empty, and each fits `width` characters unless it is
/// a single word longer than that.
pub proof fn law_wrap_line_width(text: Seq<char>, width: nat)
    ensures
        forall|k: int|
            0 <= k < wrapped(text, width).len() ==> good_line(#[trigger] wrapped(text, width)[k], width),
{
    lemma_words(text);
    lemma_wrap_from(words(text), width, Seq::empty(), Seq::empty());
}

/// A price is right-aligned: the line that carries it ends with a space and
/// the price, and is [`WIDTH`] characters long unless the price alone needs
/// more; the name's lines before it are kept.
pub proof fn law_price_aligned(name: Seq<char>, price: Seq<char>)
    ensures
        ({
            let ls = item_lines(name, Some(price));
            let plain = item_lines(name, None);
            &&& ls.len() > 0
            &&& ls.last().len() == (if price.len() + 1 <= WIDTH { WIDTH as int } else { price.len() + 1int })
            &&& ls.last().subrange(ls.last().len() - price.len() - 1, ls.last().len() as int) == seq![' '] + price
            &&& forall|k: int| 0 <= k < plain.len() - 1 ==> #[trigger] ls[k] == plain[k]
        }),
{
    let ls = item_lines(name, Some(price));
    let l = ls.last();
    assert(l.subrange(l.len() - price.len() - 1, l.len() as int) =~= seq![' '] + price);
}

/// The characters of `l` before its first space: the first word of a line.
pub open spec fn head_word(l: Seq<char>) -> Seq<char>
    decreases l.len(),
{
    if l.len() == 0 || l[0] == ' ' {
        Seq::empty()
    } else {
        seq![l[0]] + head_word(l.drop_first())
    }
}

proof fn lemma_head_word_append(a: Seq<char>, b: Seq<char>)
    ensures
        head_word(a + seq![' '] + b) == head_word(a),
    decreases a.len(),
{
    if a.len() > 0 && a[0] != ' ' {
        lemma_head_word_append(a.drop_first(), b);
        assert((a + seq![' '] + b).drop_first() =~= a.drop_first() + seq![' '] + b);
    } else if a.len() == 0 {
        assert((a + seq![' '] + b)[0] == ' ');
    } else {
        assert((a + seq![' '] + b)[0] == ' ');
    }
}

proof fn lemma_head_word_of_word(w: Seq<char>)
    requires
        free_of(w, |c: char| is_whitespace(c)),
    ensures
        head_word(w) == w,
    decreases w.len(),
{
    if w.len() > 0 {
        assert(!is_whitespace(w[0]));
        assert(free_of(w.drop_first(), |c: char| is_whitespace(c))) by {
            assert forall|i: int| 0 <= i < w.drop_first().len() implies !is_whitespace(
                #[trigger] w.drop_first()[i],
            ) by {
                assert(w.drop_first()[i] == w[i + 1]);
            }
        }
        lemma_head_word_of_word(w.drop_first());
        assert(w =~= seq![w[0]] + w.drop_first());
    }
}

/// No word could have stayed on the line before: the lines so far, then `cur`.
spec fn greedy_lines(lines: Seq<Seq<char>>, width: nat) -> bool {
    forall|k: int|
        0 <= k < lines.len() - 1 ==> #[trigger] lines[k].len() + 1 + head_word(lines[k + 1]).len()
            > width
}

proof fn lemma_wrap_greedy(ws: Seq<Seq<char>>, width: nat, lines: Seq<Seq<char>>, cur: Seq<char>)
    requires
        forall|k: int| 0 <= k < ws.len() ==> (#[trigger] ws[k]).len() > 0 && free_of(ws[k], |c: char| is_whitespace(c)),
        greedy_lines(lines, width),
        cur.len() == 0 ==> lines.len() == 0,
        lines.len() > 0 ==> lines.last().len() + 1 + head_word(cur).len() > width,
    ensures
        greedy_lines(wrap_from(ws, width, lines, cur), width),
    decreases ws.len(),
{
    if ws.len() == 0 {
        if cur.len() > 0 {
            let l2 = lines.push(cur);
            assert forall|k: int| 0 <= k < l2.len() - 1 implies #[trigger] l2[k].len() + 1 + head_word(
                l2[k + 1],
            ).len() > width by {
                assert(l2[k] == lines[k]);
                if k + 1 < lines.len() {
                    assert(l2[k + 1] == lines[k + 1]);
                }
            }
        }
    } else {
        let w = ws[0];
        let rest = ws.drop_first();
        assert(ws[0].len() > 0 && free_of(ws[0], |c: char| is_whitespace(c)));
        lemma_head_word_of_word(w);
        assert forall|k: int| 0 <= k < rest.len() implies (#[trigger] rest[k]).len() > 0 && free_of(
            rest[k],
            |c: char| is_whitespace(c),
        ) by {
            assert(rest[k] == ws[k + 1]);
        }
        if cur.len() == 0 {
            lemma_wrap_greedy(rest, width, lines, w);
        } else if cur.len() + 1 + w.len() <= width {
            lemma_head_word_append(cur, w);
            lemma_wrap_greedy(rest, width, lines, cur + seq![' '] + w);
        } else {
            let l2 = lines.push(cur);
            assert forall|k: int| 0 <= k < l2.len() - 1 implies #[trigger] l2[k].len() + 1 + head_word(
                l2[k + 1],
            ).len() > width by {
                assert(l2[k] == lines[k]);
                if k + 1 < lines.len() {
                    assert(l2[k + 1] == lines[k + 1]);
                }
            }
            lemma_wrap_greedy(rest, width, l2, w);
        }
    }
}

/// Wrapping is greedy, counting characters: the first word of each line
/// would not have fit, after a space, at the end of the line before it.
pub proof fn law_wrap_greedy(text: Seq<char>, width: nat)
    ensures
        forall|k: int|
            0 <= k < wrapped(text, width).len() - 1 ==> #[trigger] wrapped(text, width)[k].len() + 1
                + head_word(wrapped(text, width)[k + 1]).len() > width,
{
    lemma_words(text);
    lemma_wrap_greedy(words(text), width, Seq::empty(), Seq::empty());
}

/// The name's lines, or one empty line for a name without words.
pub open spec fn name_lines(name: Seq<char>) -> Seq<Seq<char>> {
    let w = wrapped(name, WIDTH as nat);
    if w.len() == 0 {
        seq![Seq::<char>::empty()]
    } else {
        w
    }
}

/// A price never replaces any of the name: the item's lines are the name's
/// wrapped lines, except that either the last of them gets dots, a space and
/// the price appended (when at least two dots fit in [`WIDTH`]), or a line of
/// dots, a space and the price follows them; without a price they are the
/// name's lines.
pub proof fn law_price_keeps_name(name: Seq<char>, price: Seq<char>)
    ensures
        item_lines(name, None) == name_lines(name),
        ({
            let nl = name_lines(name);
            let ls = item_lines(name, Some(price));
            if nl.last().len() + price.len() + 2 <= WIDTH {
                &&& ls.len() == nl.len()
                &&& forall|k: int| 0 <= k < nl.len() - 1 ==> #[trigger] ls[k] == nl[k]
                &&& exists|n: nat| n >= 1 && ls.last() == nl.last() + dots(n) + seq![' '] + price
            } else {
                exists|n: nat| ls == nl.push(dots(n) + seq![' '] + price)
            }
        }),
{
    let nl = name_lines(name);
    let ls = item_lines(name, Some(price));
    if nl.last().len() + price.len() + 2 <= WIDTH {
        let n = (WIDTH - nl.last().len() - price.len() - 1) as nat;
        assert(ls.last() == nl.last() + dots(n) + seq![' '] + price);
    } else {
        let n: int = if price.len() + 1 <= WIDTH {
            WIDTH - (price.len() + 1)
        } else {
            0
        };
        assert(ls == nl.push(dots(n as nat) + seq![' '] + price));
    }
}

/// Printing restaurants works restaurant by restaurant.
pub proof fn law_results_ops_concat(a: Seq<MenuResult>, b: Seq<MenuResult>)
    ensures
        results_ops(a + b) == results_ops(a) + results_ops(b),
    decreases b.len(),
{
    if b.len() == 0 {
        assert(a + b =~= a);
        assert(results_ops(a) + results_ops(b) =~= results_ops(a));
    } else {
        law_results_ops_concat(a, b.drop_last());
        assert((a + b).drop_last() =~= a + b.drop_last());
        assert((a + b).last() == b.last());
        assert(results_ops(a) + (results_ops(b.drop_last()) + result_ops(b.last())) =~= (results_ops(a)
            + results_ops(b.drop_last())) + result_ops(b.last()));
    }
}

/// Printing dishes works dish by dish; one dish prints its lines.
pub proof fn law_items_ops_concat(a: Seq<MenuItem>, b: Seq<MenuItem>, x: MenuItem)
    ensures
        items_ops(a + b) == items_ops(a) + items_ops(b),
        items_ops(seq![x]) == write_lines(item_lines(x.name@, price_view(x.price))),
    decreases b.len(),
{
    assert(seq![x].drop_last() =~= Seq::<MenuItem>::empty());
    assert(items_ops(seq![x].drop_last()) == Seq::<OpModel>::empty());
    assert(seq![x].last() == x);
    assert(Seq::<OpModel>::empty() + write_lines(item_lines(x.name@, price_view(x.price))) =~= write_lines(
        item_lines(x.name@, price_view(x.price)),
    ));
    if b.len() == 0 {
        assert(a + b =~= a);
        assert(items_ops(a) + items_ops(b) =~= items_ops(a));
    } else {
        law_items_ops_concat(a, b.drop_last(), x);
        assert((a + b).drop_last() =~= a + b.drop_last());
        assert((a + b).last() == b.last());
        let w = write_lines(item_lines(b.last().name@, price_view(b.last().price)));
        assert(items_ops(a) + (items_ops(b.drop_last()) + w) =~= (items_ops(a) + items_ops(
            b.drop_last(),
        )) + w);
    }
}

/// One restaurant prints as its name in bold, one line per wrapped line of
/// the name, then its status when it is not `ok`, `(no items)` when it has no
/// dish, its dishes otherwise, then a line feed.
pub proof fn law_single_result(r: MenuResult)
    ensures
        results_ops(seq![r]) == result_ops(r),
        ({
            let ops = result_ops(r);
            let nl = wrapped(r.restaurant.name@, WIDTH as nat);
            &&& ops[0] == OpModel::Bold(true)
            &&& forall|k: int| 0 <= k < nl.len() ==> #[trigger] ops[1 + k] == OpModel::WriteLine(nl[k])
            &&& ops[nl.len() + 1int] == OpModel::Bold(false)
            &&& ops.last() == OpModel::Feed
            &&& r.status@ != "ok"@ ==> ops.len() == nl.len() + 4 && ops[nl.len() + 2int]
                == OpModel::WriteLine("  ("@ + r.status@ + ")"@)
        }),
{
    assert(seq![r].drop_last() =~= Seq::<MenuResult>::empty());
    assert(results_ops(seq![r].drop_last()) == Seq::<OpModel>::empty());
    assert(seq![r].last() == r);
    assert(Seq::<OpModel>::empty() + result_ops(r) =~= result_ops(r));
}

} // verus!
