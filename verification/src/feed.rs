//! Streamed input: lines become items in batches, handed over through a
//! queue the event loop drains every tick.
use vstd::prelude::*;
use vstd::utf8::{decode_utf8, valid_utf8};

use crate::items::{item_view, parse, Item};
use crate::text::{first_index, lemma_first_index, lemma_first_index_range, lowercase};

verus! {

/// Lines handed over per batch.
pub const BATCH: usize = 256;

/// `std::str::from_utf8`: the text the bytes encode, when they are valid
/// UTF-8 (`None` otherwise).
#[verifier::external_body]
fn utf8_text(bytes: &[u8]) -> (r: Option<String>)
    ensures
        r is Some <==> valid_utf8(bytes@),
        r matches Some(s) ==> s@ == decode_utf8(bytes@),
{
    match std::str::from_utf8(bytes) {
        Ok(s) => Some(s.to_string()),
        Err(_) => None,
    }
}

/// A line as read (with its `\n`, if any) without its line ending: `\n`,
/// or `\r\n`; a final line without `\n` keeps everything.
pub open spec fn line_body(raw: Seq<u8>) -> Seq<u8> {
    if raw.len() > 0 && raw.last() == 10u8 {
        let t = raw.drop_last();
        if t.len() > 0 && t.last() == 13u8 {
            t.drop_last()
        } else {
            t
        }
    } else {
        raw
    }
}

/// The item a line read from input becomes: none when it is not valid UTF-8
/// (a bad line is skipped, never a reason to stop).
pub open spec fn line_item_spec(raw: Seq<u8>) -> Option<(Seq<char>, Seq<char>, Seq<char>, Seq<char>)> {
    let body = line_body(raw);
    if valid_utf8(body) {
        let t = decode_utf8(body);
        Some((t, t, lowercase(t), seq![]))
    } else {
        None
    }
}

/// The item a line read from input becomes, or none when it is not valid
/// UTF-8.
pub fn line_item(raw: &[u8]) -> (r: Option<Item>)
    ensures
        match r {
            Some(it) => line_item_spec(raw@) == Some(item_view(it)),
            None => line_item_spec(raw@) is None,
        },
{
    let n = raw.len();
    let mut end = n;
    if end > 0 && raw[end - 1] == 10u8 {
        end = end - 1;
        if end > 0 && raw[end - 1] == 13u8 {
            end = end - 1;
        }
    }
    let mut body: Vec<u8> = Vec::new();
    let mut i: usize = 0;
    while i < end
        invariant
            end <= raw@.len(),
            i <= end,
            body@ == raw@.subrange(0, i as int),
        decreases end - i,
    {
        body.push(raw[i]);
        assert(body@ =~= raw@.subrange(0, i + 1));
        i += 1;
    }
    proof {
        assert(body@ =~= line_body(raw@));
    }
    match utf8_text(body.as_slice()) {
        Some(t) => Some(parse(t.as_str())),
        None => None,
    }
}

/// Lines of `b` as read one at a time, each with its `\n` (the last one
/// without, when the input does not end in a newline).
pub open spec fn raw_lines(b: Seq<u8>) -> Seq<Seq<u8>>
    decreases b.len(),
{
    if b.len() == 0 {
        seq![]
    } else {
        let k = first_index(b, 10u8, 0);
        proof {
            lemma_first_index_range(b, 10u8, 0);
        }
        if k < 0 {
            seq![b]
        } else {
            seq![b.take(k + 1)] + raw_lines(b.skip(k + 1))
        }
    }
}

/// The items of the valid lines among `ls`, in order.
pub open spec fn line_items(ls: Seq<Seq<u8>>) -> Seq<(Seq<char>, Seq<char>, Seq<char>, Seq<char>)>
    decreases ls.len(),
{
    if ls.len() == 0 {
        seq![]
    } else {
        line_items(ls.drop_last()) + match line_item_spec(ls.last()) {
            Some(v) => seq![v],
            None => seq![],
        }
    }
}

/// Lines collected until there are enough to hand over.
pub struct LineBatch {
    pub items: Vec<Item>,
}

impl LineBatch {
    /// An empty batch.
    pub fn new() -> (b: LineBatch)
        ensures
            b.items@.len() == 0,
    {
        LineBatch { items: Vec::new() }
    }

    /// Add a line as read; once the batch is full it is handed back (and
    /// this one starts over empty).
    pub fn push_line(&mut self, raw: &[u8]) -> (full: Option<Vec<Item>>)
        requires
            old(self).items@.len() < BATCH,
        ensures
            final(self).items@.len() < BATCH,
            ({
                let all = old(self).items@.map_values(|it: Item| item_view(it)) + match line_item_spec(raw@) {
                    Some(v) => seq![v],
                    None => seq![],
                };
                match full {
                    Some(b) => b@.map_values(|it: Item| item_view(it)) == all && all.len() == BATCH
                        && final(self).items@.len() == 0,
                    None => final(self).items@.map_values(|it: Item| item_view(it)) == all
                        && all.len() < BATCH,
                }
            }),
    {
        let ghost before = self.items@.map_values(|it: Item| item_view(it));
        match line_item(raw) {
            Some(it) => {
                self.items.push(it);
                assert(self.items@.map_values(|it: Item| item_view(it)) =~= before.push(
                    item_view(it),
                ));
            },
            None => {
                assert(self.items@.map_values(|it: Item| item_view(it)) =~= before);
            },
        }
        if self.items.len() >= BATCH {
            let mut full: Vec<Item> = Vec::new();
            std::mem::swap(&mut full, &mut self.items);
            Some(full)
        } else {
            None
        }
    }

    /// What is left once input ends (none when empty).
    pub fn finish(self) -> (rest: Option<Vec<Item>>)
        ensures
            match rest {
                Some(b) => b@ == self.items@ && b@.len() > 0,
                None => self.items@.len() == 0,
            },
    {
        if self.items.len() > 0 {
            Some(self.items)
        } else {
            None
        }
    }
}

/// Items arriving from a reader: a queue the event loop drains every tick,
/// and whether input has ended.
pub struct ItemFeed {
    pub queue: Vec<Item>,
    pub done: bool,
}

impl ItemFeed {
    /// An empty feed, input still open.
    pub fn new() -> (f: ItemFeed)
        ensures
            f.queue@.len() == 0,
            !f.done,
    {
        ItemFeed { queue: Vec::new(), done: false }
    }

    /// Queue a batch behind what is already there.
    pub fn push(&mut self, batch: Vec<Item>)
        ensures
            final(self).queue@ == old(self).queue@ + batch@,
            final(self).done == old(self).done,
    {
        let mut batch = batch;
        self.queue.append(&mut batch);
    }

    /// Take everything queued, in order, leaving the queue empty.
    pub fn drain(&mut self) -> (items: Vec<Item>)
        ensures
            items@ == old(self).queue@,
            final(self).queue@.len() == 0,
            final(self).done == old(self).done,
    {
        let mut items: Vec<Item> = Vec::new();
        std::mem::swap(&mut items, &mut self.queue);
        items
    }

    /// Input has ended.
    pub fn mark_done(&mut self)
        ensures
            final(self).done,
            final(self).queue@ == old(self).queue@,
    {
        self.done = true;
    }

    /// Whether input has ended.
    pub fn done(&self) -> (b: bool)
        ensures
            b == self.done,
    {
        self.done
    }

    /// Read `data` to the end, line by line, queueing the item of each valid
    /// line in batches; invalid lines are skipped.
    pub fn read_into(&mut self, data: &[u8])
        ensures
            final(self).queue@.map_values(|it: Item| item_view(it)) == old(self).queue@.map_values(
                |it: Item| item_view(it),
            ) + line_items(raw_lines(data@)),
            final(self).done == old(self).done,
    {
        let ghost start = self.queue@.map_values(|it: Item| item_view(it));
        let mut batch = LineBatch::new();
        let mut pos: usize = 0;
        let ghost mut seen: Seq<Seq<u8>> = seq![];
        assert(data@.skip(0) =~= data@);
        while pos < data.len()
            invariant
                pos <= data@.len(),
                batch.items@.len() < BATCH,
                raw_lines(data@) == seen + raw_lines(data@.skip(pos as int)),
                self.queue@.map_values(|it: Item| item_view(it)) + batch.items@.map_values(
                    |it: Item| item_view(it),
                ) == start + line_items(seen),
                self.done == old(self).done,
            decreases data@.len() - pos,
        {
            let mut end = pos;
            while end < data.len() && data[end] != 10u8
                invariant
                    pos <= end <= data@.len(),
                    forall|j: int| pos <= j < end ==> data@[j] != 10u8,
                decreases data@.len() - end,
            {
                end += 1;
            }
            let stop = if end < data.len() {
                end + 1
            } else {
                end
            };
            let mut line: Vec<u8> = Vec::new();
            let mut i = pos;
            while i < stop
                invariant
                    pos <= i <= stop <= data@.len(),
                    line@ == data@.subrange(pos as int, i as int),
                decreases stop - i,
            {
                line.push(data[i]);
                assert(line@ =~= data@.subrange(pos as int, i + 1));
                i += 1;
            }
            proof {
                let rest = data@.skip(pos as int);
                lemma_first_index(rest, 10u8, 0, end - pos);
                if end < data@.len() {
                    assert(rest.take(end - pos + 1) =~= line@);
                    assert(rest.skip(end - pos + 1) =~= data@.skip(stop as int));
                } else {
                    assert(rest =~= line@);
                    assert(data@.skip(stop as int) =~= Seq::<u8>::empty());
                }
                assert(raw_lines(rest) == seq![line@] + raw_lines(data@.skip(stop as int)));
                assert(seen + raw_lines(rest) =~= seen.push(line@) + raw_lines(
                    data@.skip(stop as int),
                ));
                assert(seen.push(line@).drop_last() =~= seen);
            }
            let ghost q = self.queue@.map_values(|it: Item| item_view(it));
            let ghost b = batch.items@.map_values(|it: Item| item_view(it));
            let ghost opt: Seq<(Seq<char>, Seq<char>, Seq<char>, Seq<char>)> = match line_item_spec(line@) {
                Some(v) => seq![v],
                None => seq![],
            };
            proof {
                assert(line_items(seen.push(line@)) == line_items(seen) + opt);
            }
            match batch.push_line(line.as_slice()) {
                Some(full) => {
                    let ghost fv = full@.map_values(|it: Item| item_view(it));
                    self.push(full);
                    assert(self.queue@.map_values(|it: Item| item_view(it)) =~= q + fv);
                    assert(batch.items@.map_values(|it: Item| item_view(it)) =~= seq![]);
                    assert(q + fv + seq![] =~= q + b + opt);
                },
                None => {
                    assert(q + (b + opt) =~= q + b + opt);
                },
            }
            proof {
                seen = seen.push(line@);
            }
            pos = stop;
        }
        proof {
            assert(data@.skip(pos as int) =~= Seq::<u8>::empty());
            assert(seen + raw_lines(Seq::<u8>::empty()) =~= seen);
        }
        let ghost q = self.queue@.map_values(|it: Item| item_view(it));
        match batch.finish() {
            Some(rest) => {
                let ghost rv = rest@.map_values(|it: Item| item_view(it));
                self.push(rest);
                assert(self.queue@.map_values(|it: Item| item_view(it)) =~= q + rv);
            },
            None => {
                assert(q + Seq::<(Seq<char>, Seq<char>, Seq<char>, Seq<char>)>::empty() =~= q);
            },
        }
    }
}

} // verus!
