use vstd::prelude::*;

use crate::grid::blit;
use crate::grid::contains_at;
use crate::grid::filled;
use crate::rect::Draw;
use crate::rect::Drawable;

verus! {

broadcast use vstd::std_specs::vec::axiom_spec_len;

/// Background colour used when none is asked for.
pub const DEFAULT_BG: u32 = 0xDDDDDD;

/// A pool of freed identifiers (reused oldest first) plus a monotonically
/// increasing high-water mark used once the pool is empty.
pub struct IdAllocator {
    pub free: Vec<usize>,
    pub next: usize,
}

impl IdAllocator {
    /// The pool holds no identifier twice, and only identifiers that were
    /// handed out before (between 1 and the high-water mark).
    pub open spec fn wf(&self) -> bool {
        &&& forall|i: int, j: int|
            0 <= i < j < self.free@.len() ==> self.free@[i] != self.free@[j]
        &&& forall|i: int|
            0 <= i < self.free@.len() ==> 1 <= #[trigger] self.free@[i] <= self.next
    }

    /// An empty allocator: nothing freed, nothing handed out yet.
    pub fn new() -> (a: IdAllocator)
        ensures
            a.wf(),
            a.free@.len() == 0,
            a.next == 0,
    {
        IdAllocator { free: Vec::new(), next: 0 }
    }

    /// Returns the oldest freed identifier when one exists — the high-water
    /// mark does not advance then — else advances the mark and returns the
    /// fresh value. The result never remains in the pool.
    pub fn allocate(&mut self) -> (id: usize)
        requires
            old(self).wf(),
            old(self).next < usize::MAX,
        ensures
            final(self).wf(),
            1 <= id <= final(self).next,
            !final(self).free@.contains(id),
            old(self).free@.len() > 0 ==> id == old(self).free@[0] && final(self).free@ == old(
                self).free@.remove(0) && final(self).next == old(self).next,
            old(self).free@.len() == 0 ==> id == old(self).next + 1 && final(self).next == old(
                self).next + 1 && final(self).free@ == old(self).free@,
    {
        if self.free.len() > 0 {
            let id = self.free.remove(0);
            proof {
                old(self).free@.remove_ensures(0);
                assert forall|i: int| 0 <= i < self.free@.len() implies #[trigger] self.free@[i]
                    != id by {
                    assert(self.free@[i] == old(self).free@[i + 1]);
                }
                assert(!self.free@.contains(id));
            }
            id
        } else {
            self.next = self.next + 1;
            self.next
        }
    }

    /// Returns an identifier to the pool; the caller hands in one that was
    /// allocated and is not in the pool already.
    pub fn free_id(&mut self, id: usize)
        requires
            old(self).wf(),
            1 <= id <= old(self).next,
            !old(self).free@.contains(id),
        ensures
            final(self).wf(),
            final(self).free@ == old(self).free@.push(id),
            final(self).next == old(self).next,
    {
        self.free.push(id);
        proof {
            assert forall|i: int, j: int|
                0 <= i < j < self.free@.len() implies self.free@[i] != self.free@[j] by {
                if j < self.free@.len() - 1 {
                } else {
                    assert(old(self).free@.contains(self.free@[i])) by {
                        assert(old(self).free@[i] == self.free@[i]);
                    }
                }
            }
        }
    }
}

/// One scene record: a drawable, its position on the canvas, and its live
/// identifier.
pub struct Item {
    pub drawable: Drawable,
    pub pos: (usize, usize),
    pub id: usize,
}

/// A command that a key press triggers.
#[derive(Clone, Copy, Debug)]
pub enum Effect {
    ChangeBackground(u32),
    RemoveItem(usize),
    SelectItem(usize),
    Close,
}

/// Some record carries this identifier.
pub open spec fn has_id(items: Seq<Item>, id: usize) -> bool {
    exists|i: int| 0 <= i < items.len() && (#[trigger] items[i]).id == id
}

/// The index of the record carrying this identifier (unique once identifiers
/// are distinct).
pub open spec fn idx_of(items: Seq<Item>, id: usize) -> int {
    choose|i: int| 0 <= i < items.len() && (#[trigger] items[i]).id == id
}

/// No identifier is carried by two records.
pub open spec fn ids_distinct(items: Seq<Item>) -> bool {
    forall|i: int, j: int|
        0 <= i < j < items.len() ==> (#[trigger] items[i]).id != (#[trigger] items[j]).id
}

/// The record covers the canvas point: the point lies at or beyond the
/// record's origin on both axes and the translated point hits an opaque
/// pixel of its drawable.
pub open spec fn covers(it: Item, x: int, y: int) -> bool {
    &&& it.pos.0 <= x
    &&& it.pos.1 <= y
    &&& contains_at(it.drawable.grid(), x - it.pos.0, y - it.pos.1)
}

/// Topmost-wins hit-testing: the identifier of the last record in draw order
/// that covers the point, if any.
pub open spec fn spec_hit(items: Seq<Item>, x: int, y: int) -> Option<usize>
    decreases items.len(),
{
    if items.len() == 0 {
        None
    } else if covers(items.last(), x, y) {
        Some(items.last().id)
    } else {
        spec_hit(items.drop_last(), x, y)
    }
}

/// Some binding carries this key.
pub open spec fn has_key(effects: Seq<(usize, Effect)>, key: usize) -> bool {
    exists|i: int| 0 <= i < effects.len() && (#[trigger] effects[i]).0 == key
}

/// The index of the binding carrying this key (unique once keys are
/// distinct).
pub open spec fn key_idx(effects: Seq<(usize, Effect)>, key: usize) -> int {
    choose|i: int| 0 <= i < effects.len() && (#[trigger] effects[i]).0 == key
}

/// No key is bound twice.
pub open spec fn keys_distinct(effects: Seq<(usize, Effect)>) -> bool {
    forall|i: int, j: int|
        0 <= i < j < effects.len() ==> (#[trigger] effects[i]).0 != (#[trigger] effects[j]).0
}

/// The effect bound to a key, if any.
pub open spec fn eff_of(effects: Seq<(usize, Effect)>, key: usize) -> Option<Effect> {
    if has_key(effects, key) {
        Some(effects[key_idx(effects, key)].1)
    } else {
        None
    }
}

/// The first `n` records blitted into the buffer, in draw order.
pub open spec fn blit_items(b: Seq<u32>, items: Seq<Item>, width: int, n: int) -> Seq<u32>
    decreases n,
{
    if n <= 0 {
        b
    } else {
        let it = items[n - 1];
        blit(blit_items(b, items, width, n - 1), it.drawable.grid(), width, it.pos.0 as int,
            it.pos.1 as int)
    }
}

/// The composited frame of a scene: the background colour everywhere, every
/// record blitted over it in draw order, and — when the selection resolves to
/// a live record — that record's outline on top of everything.
pub open spec fn render_spec(img: Image) -> Seq<u32> {
    let base = filled((img.width * img.height) as nat, img.bg_color);
    let drawn = blit_items(base, img.items@, img.width as int, img.items@.len() as int);
    match img.selected {
        Some(id) => if has_id(img.items@, id) {
            let it = img.items@[idx_of(img.items@, id)];
            blit(drawn, it.drawable.outline_view(), img.width as int, it.pos.0 as int,
                it.pos.1 as int)
        } else {
            drawn
        },
        None => drawn,
    }
}

/// How a scene changes when the record carrying `id` is removed: the record
/// leaves the sequence with the order of the rest preserved, its identifier
/// returns to the pool, the scene is marked dirty, and the selection is
/// cleared when it pointed at this record. When no record carries `id`,
/// nothing changes.
pub open spec fn remove_post(pre: Image, post: Image, id: usize) -> bool {
    if has_id(pre.items@, id) {
        &&& post == (Image {
            items: post.items,
            queue: post.queue,
            change: true,
            selected: post.selected,
            ..pre
        })
        &&& post.items@ == pre.items@.remove(idx_of(pre.items@, id))
        &&& post.queue.free@ == pre.queue.free@.push(id)
        &&& post.queue.next == pre.queue.next
        &&& post.selected == (if pre.selected == Some(id) {
            None::<usize>
        } else {
            pre.selected
        })
    } else {
        post == pre
    }
}

/// The scene: canvas size, background colour, composited pixel buffer, the
/// needs-redraw flag, the open flag, the key bindings, the ordered item
/// records, the identifier allocator, and the optional selection.
pub struct Image {
    pub width: usize,
    pub height: usize,
    pub bg_color: u32,
    pub buff: Vec<u32>,
    pub change: bool,
    pub opened: bool,
    pub effects: Vec<(usize, Effect)>,
    pub items: Vec<Item>,
    pub queue: IdAllocator,
    pub selected: Option<usize>,
}

impl Image {
    /// The scene invariant: live identifiers are distinct, allocated, and
    /// absent from the free pool; every drawable is well formed; keys are
    /// bound at most once; and the buffer covers the canvas.
    pub open spec fn wf(&self) -> bool {
        &&& self.queue.wf()
        &&& ids_distinct(self.items@)
        &&& forall|i: int|
            0 <= i < self.items@.len() ==> 1 <= (#[trigger] self.items@[i]).id <= self.queue.next
        &&& forall|i: int|
            0 <= i < self.items@.len() ==> !self.queue.free@.contains(
                (#[trigger] self.items@[i]).id,
            )
        &&& forall|i: int| 0 <= i < self.items@.len() ==> (#[trigger] self.items@[i]).drawable.wf()
        &&& keys_distinct(self.effects@)
        &&& self.width * self.height <= usize::MAX
        &&& self.buff@.len() == self.width * self.height
    }

    /// An empty scene over a width-by-height canvas, filled with the asked
    /// background colour (or the default), marked dirty and open.
    pub fn new(width: usize, height: usize, bg: Option<u32>) -> (img: Image)
        requires
            width * height <= usize::MAX,
        ensures
            img.wf(),
            img.width == width,
            img.height == height,
            img.bg_color == (match bg {
                Some(a) => a,
                None => DEFAULT_BG,
            }),
            img.buff@ == filled((width * height) as nat, img.bg_color),
            img.change,
            img.opened,
            img.items@.len() == 0,
            img.effects@.len() == 0,
            img.queue.free@.len() == 0,
            img.queue.next == 0,
            img.selected is None,
    {
        let bg_color = match bg {
            Some(a) => a,
            None => DEFAULT_BG,
        };
        let buff = fill(width * height, bg_color);
        Image {
            width,
            height,
            bg_color,
            buff,
            change: true,
            opened: true,
            effects: Vec::new(),
            items: Vec::new(),
            queue: IdAllocator::new(),
            selected: None,
        }
    }

    /// The scene is open until `close` is called.
    pub fn is_open(&self) -> (r: bool)
        ensures
            r == self.opened,
    {
        self.opened
    }

    /// Marks the scene closed.
    pub fn close(&mut self)
        ensures
            *final(self) == (Image { opened: false, ..*old(self) }),
    {
        self.opened = false;
    }

    /// The canvas size as (width, height).
    pub fn get_size(&self) -> (r: (usize, usize))
        ensures
            r == (self.width, self.height),
    {
        (self.width, self.height)
    }

    /// The number of live records.
    pub fn len(&self) -> (n: usize)
        ensures
            n == self.items@.len(),
    {
        self.items.len()
    }

    /// Sets the background colour and marks the scene dirty.
    pub fn change_background(&mut self, col: u32)
        ensures
            *final(self) == (Image { bg_color: col, change: true, ..*old(self) }),
    {
        self.bg_color = col;
        self.change = true;
    }

    /// Selects an identifier unconditionally (one that no record carries is
    /// accepted and simply renders nothing extra) and marks the scene dirty.
    pub fn select(&mut self, id: usize)
        ensures
            *final(self) == (Image { selected: Some(id), change: true, ..*old(self) }),
    {
        self.selected = Some(id);
        self.change = true;
    }

    /// Appends a record for the drawable at the given position, under a fresh
    /// or recycled identifier, and marks the scene dirty. The new record
    /// renders above all existing ones. A freed identifier is reused (oldest
    /// first) before the high-water mark advances.
    pub fn add_item(&mut self, inp: Drawable, pos: (usize, usize)) -> (id: usize)
        requires
            old(self).wf(),
            old(self).queue.next < usize::MAX,
            inp.wf(),
        ensures
            final(self).wf(),
            !has_id(old(self).items@, id),
            final(self).items@ == old(self).items@.push(Item { drawable: inp, pos, id }),
            *final(self) == (Image {
                items: final(self).items,
                queue: final(self).queue,
                change: true,
                ..*old(self)
            }),
            old(self).queue.free@.len() > 0 ==> id == old(self).queue.free@[0] && final(
                self).queue.next == old(self).queue.next,
            old(self).queue.free@.len() == 0 ==> id == old(self).queue.next + 1,
    {
        self.change = true;
        let id = self.queue.allocate();
        proof {
            assert forall|i: int| 0 <= i < self.items@.len() implies (#[trigger] self.items@[i]).id
                != id by {
                if old(self).queue.free@.len() > 0 {
                    assert(old(self).queue.free@.contains(id)) by {
                        assert(old(self).queue.free@[0] == id);
                    }
                } else {
                }
            }
        }
        self.items.push(Item { drawable: inp, pos, id });
        proof {
            assert forall|i: int|
                0 <= i < self.items@.len() implies !self.queue.free@.contains(
                (#[trigger] self.items@[i]).id,
            ) by {
                if i < self.items@.len() - 1 {
                    if old(self).queue.free@.len() > 0 {
                        let f = self.queue.free@;
                        let f0 = old(self).queue.free@;
                        if f.contains(self.items@[i].id) {
                            let k = choose|k: int| 0 <= k < f.len() && f[k] == self.items@[i].id;
                            f0.remove_ensures(0);
                            assert(f0[k + 1] == f[k]);
                            assert(f0.contains(self.items@[i].id));
                        }
                    }
                }
            }
        }
        id
    }

    /// Removes the record carrying `id`, returning its drawable; the order of
    /// the remaining records is preserved, the identifier returns to the
    /// pool, and a selection pointing at this record is cleared. Returns
    /// nothing — and changes nothing — when no record carries `id` (so a
    /// second removal of the same identifier finds nothing).
    pub fn remove_item(&mut self, id: usize) -> (r: Option<Drawable>)
        requires
            old(self).wf(),
        ensures
            final(self).wf(),
            remove_post(*old(self), *final(self), id),
            r == (if has_id(old(self).items@, id) {
                Some(old(self).items@[idx_of(old(self).items@, id)].drawable)
            } else {
                None::<Drawable>
            }),
    {
        let n = self.items.len();
        let mut i: usize = 0;
        while i < n
            invariant
                *self == *old(self),
                old(self).wf(),
                n == self.items@.len(),
                i <= n,
                forall|j: int| 0 <= j < i ==> (#[trigger] self.items@[j]).id != id,
            decreases n - i,
        {
            if self.items[i].id == id {
                proof {
                    assert(has_id(self.items@, id));
                    let k = idx_of(self.items@, id);
                    assert(0 <= k < self.items@.len() && self.items@[k].id == id);
                    assert(k == i);
                }
                self.queue.free_id(id);
                let item = self.items.remove(i);
                self.change = true;
                match self.selected {
                    Some(s) => if s == id {
                        self.selected = None;
                    },
                    None => {},
                }
                proof {
                    let pre = old(self).items@;
                    let post = self.items@;
                    pre.remove_ensures(i as int);
                    assert forall|a: int, b: int|
                        0 <= a < b < post.len() implies (#[trigger] post[a]).id != (
                    #[trigger] post[b]).id by {
                        let a0: int = if a < i { a } else { a + 1 };
                        let b0: int = if b < i { b } else { b + 1 };
                        assert(post[a] == pre[a0] && post[b] == pre[b0]);
                    }
                    assert forall|a: int|
                        0 <= a < post.len() implies 1 <= (#[trigger] post[a]).id
                        <= self.queue.next && !self.queue.free@.contains(post[a].id)
                        && post[a].drawable.wf() by {
                        let a0: int = if a < i { a } else { a + 1 };
                        assert(post[a] == pre[a0]);
                        assert(pre[a0].id != id);
                        assert forall|f: int|
                            0 <= f < self.queue.free@.len() implies #[trigger] self.queue.free@[f]
                            != post[a].id by {
                            if f < self.queue.free@.len() - 1 {
                                assert(self.queue.free@[f] == old(self).queue.free@[f]);
                                assert(old(self).queue.free@.contains(old(self).queue.free@[f]));
                            }
                        }
                    }
                }
                return Some(item.drawable);
            }
            i += 1;
        }
        proof {
            assert(!has_id(self.items@, id));
        }
        None
    }

    /// Topmost-wins hit-testing: walks the records from the most recently
    /// drawn to the least, translating the query point into each record's
    /// local coordinates (a point left of or above a record's origin skips
    /// it), and returns the identifier of the first record whose drawable
    /// contains the translated point.
    pub fn get_clicked(&self, x: usize, y: usize) -> (r: Option<usize>)
        requires
            self.wf(),
        ensures
            r == spec_hit(self.items@, x as int, y as int),
    {
        let mut i: usize = self.items.len();
        proof {
            assert(self.items@.subrange(0, i as int) =~= self.items@);
        }
        while i > 0
            invariant
                self.wf(),
                i <= self.items@.len(),
                spec_hit(self.items@.subrange(0, i as int), x as int, y as int) == spec_hit(
                    self.items@, x as int, y as int),
            decreases i,
        {
            i = i - 1;
            let it = &self.items[i];
            let ghost pre = self.items@.subrange(0, i as int + 1);
            proof {
                assert(pre.last() == self.items@[i as int]);
                assert(pre.drop_last() =~= self.items@.subrange(0, i as int));
            }
            if let Some(dx) = x.checked_sub(it.pos.0) {
                if let Some(dy) = y.checked_sub(it.pos.1) {
                    if it.drawable.contains((dx, dy)) {
                        proof {
                            assert(covers(self.items@[i as int], x as int, y as int));
                        }
                        return Some(it.id);
                    }
                }
            }
            proof {
                assert(!covers(self.items@[i as int], x as int, y as int));
            }
        }
        proof {
            assert(self.items@.subrange(0, 0).len() == 0);
        }
        None
    }

    /// Binds a key to an effect, replacing any earlier binding of the same
    /// key; other bindings keep their effects.
    pub fn add_effect(&mut self, inp: usize, fun: Effect)
        requires
            old(self).wf(),
        ensures
            final(self).wf(),
            *final(self) == (Image { effects: final(self).effects, ..*old(self) }),
            eff_of(final(self).effects@, inp) == Some(fun),
            forall|k: usize|
                k != inp ==> #[trigger] eff_of(final(self).effects@, k) == eff_of(
                    old(self).effects@, k),
    {
        let n = self.effects.len();
        let mut i: usize = 0;
        while i < n
            invariant
                *self == *old(self),
                old(self).wf(),
                n == self.effects@.len(),
                i <= n,
                forall|j: int| 0 <= j < i ==> (#[trigger] self.effects@[j]).0 != inp,
            decreases n - i,
        {
            if self.effects[i].0 == inp {
                self.effects.set(i, (inp, fun));
                proof {
                    lemma_eff_lookup(old(self).effects@, self.effects@, inp, fun, i as int);
                }
                return ;
            }
            i += 1;
        }
        self.effects.push((inp, fun));
        proof {
            lemma_eff_append(old(self).effects@, self.effects@, inp, fun);
        }
    }

    /// Looks up the effect bound to the key and applies it; an unbound key
    /// changes nothing.
    pub fn get_effect(&mut self, inp: usize)
        requires
            old(self).wf(),
        ensures
            final(self).wf(),
            match eff_of(old(self).effects@, inp) {
                None => *final(self) == *old(self),
                Some(Effect::ChangeBackground(c)) => *final(self) == (Image {
                    bg_color: c,
                    change: true,
                    ..*old(self)
                }),
                Some(Effect::SelectItem(id)) => *final(self) == (Image {
                    selected: Some(id),
                    change: true,
                    ..*old(self)
                }),
                Some(Effect::Close) => *final(self) == (Image { opened: false, ..*old(self) }),
                Some(Effect::RemoveItem(id)) => remove_post(*old(self), *final(self), id),
            },
    {
        let n = self.effects.len();
        let mut i: usize = 0;
        while i < n
            invariant
                *self == *old(self),
                old(self).wf(),
                n == self.effects@.len(),
                i <= n,
                forall|j: int| 0 <= j < i ==> (#[trigger] self.effects@[j]).0 != inp,
            decreases n - i,
        {
            if self.effects[i].0 == inp {
                let e = self.effects[i].1;
                proof {
                    assert(has_key(self.effects@, inp));
                    let k = key_idx(self.effects@, inp);
                    assert(0 <= k < self.effects@.len() && self.effects@[k].0 == inp);
                    assert(k == i);
                    assert(eff_of(self.effects@, inp) == Some(e));
                }
                match e {
                    Effect::ChangeBackground(c) => self.change_background(c),
                    Effect::RemoveItem(id) => {
                        let _removed = self.remove_item(id);
                    },
                    Effect::SelectItem(id) => self.select(id),
                    Effect::Close => self.close(),
                }
                return ;
            }
            i += 1;
        }
        proof {
            assert(!has_key(self.effects@, inp));
        }
    }

    /// Recomposites the frame when the scene is dirty: fills the buffer with
    /// the background colour, draws every record in draw order, draws the
    /// selected record's outline on top when the selection resolves to a live
    /// record, and clears the dirty flag. A clean scene is left untouched.
    pub fn render(&mut self)
        requires
            old(self).wf(),
        ensures
            final(self).wf(),
            !old(self).change ==> *final(self) == *old(self),
            old(self).change ==> *final(self) == (Image {
                buff: final(self).buff,
                change: false,
                ..*old(self)
            }) && final(self).buff@ == render_spec(*old(self)),
    {
        if !self.change {
            return ;
        }
        let n = self.width * self.height;
        let mut buff = fill(n, self.bg_color);
        let ghost base = filled(n as nat, self.bg_color);
        let count = self.items.len();
        let mut i: usize = 0;
        while i < count
            invariant
                *self == *old(self),
                old(self).wf(),
                old(self).change,
                count == self.items@.len(),
                i <= count,
                n == self.width * self.height,
                base == filled(n as nat, self.bg_color),
                buff@.len() == n,
                buff@ == blit_items(base, self.items@, self.width as int, i as int),
            decreases count - i,
        {
            let it = &self.items[i];
            it.drawable.draw(&mut buff, self.width, it.pos);
            i += 1;
        }
        match self.selected {
            Some(sel) => {
                let mut j: usize = 0;
                while j < count
                    invariant
                        *self == *old(self),
                        old(self).wf(),
                        old(self).change,
                        self.selected == Some(sel),
                        count == self.items@.len(),
                        j <= count,
                        n == self.width * self.height,
                        base == filled(n as nat, self.bg_color),
                        buff@.len() == n,
                        buff@ == blit_items(base, self.items@, self.width as int, count as int),
                        forall|a: int| 0 <= a < j ==> (#[trigger] self.items@[a]).id != sel,
                    decreases count - j,
                {
                    if self.items[j].id == sel {
                        proof {
                            assert(has_id(self.items@, sel));
                            let k = idx_of(self.items@, sel);
                            assert(0 <= k < self.items@.len() && self.items@[k].id == sel);
                            assert(k == j);
                        }
                        let outline = self.items[j].drawable.get_outline();
                        outline.draw(&mut buff, self.width, self.items[j].pos);
                        self.buff = buff;
                        self.change = false;
                        return ;
                    }
                    j += 1;
                }
                proof {
                    assert(!has_id(self.items@, sel));
                }
            },
            None => {},
        }
        self.buff = buff;
        self.change = false;
    }
}

/// Law: in a well-formed scene no identifier is live on two records at once —
/// whatever sequence of insertions and removals produced the scene, since
/// every operation preserves well-formedness.
pub proof fn lemma_no_id_live_twice(img: Image)
    requires
        img.wf(),
    ensures
        forall|i: int, j: int|
            0 <= i < img.items@.len() && 0 <= j < img.items@.len() && i != j ==> (
            #[trigger] img.items@[i]).id != (#[trigger] img.items@[j]).id,
{
}

/// Law: appending a record under a fresh identifier and then removing that
/// identifier finds exactly the appended record and restores the previous
/// sequence.
pub proof fn lemma_remove_inserted(items: Seq<Item>, it: Item)
    requires
        !has_id(items, it.id),
    ensures
        has_id(items.push(it), it.id),
        idx_of(items.push(it), it.id) == items.len() as int,
        items.push(it)[idx_of(items.push(it), it.id)].drawable == it.drawable,
        items.push(it).remove(items.len() as int) == items,
{
    let pushed = items.push(it);
    assert(pushed[items.len() as int] == it);
    assert(has_id(pushed, it.id));
    let k = idx_of(pushed, it.id);
    assert(0 <= k < pushed.len() && pushed[k].id == it.id);
    if k < items.len() {
        assert(items[k] == pushed[k]);
        assert(has_id(items, it.id));
    }
    assert(k == items.len() as int);
    pushed.remove_ensures(items.len() as int);
    assert(pushed.remove(items.len() as int) =~= items);
}

/// Law: once the record carrying an identifier is removed, that identifier is
/// no longer found among the records.
pub proof fn lemma_remove_then_not_found(items: Seq<Item>, id: usize)
    requires
        ids_distinct(items),
        has_id(items, id),
    ensures
        !has_id(items.remove(idx_of(items, id)), id),
{
    let i = idx_of(items, id);
    assert(0 <= i < items.len() && items[i].id == id);
    let removed = items.remove(i);
    items.remove_ensures(i);
    if has_id(removed, id) {
        let j = choose|j: int| 0 <= j < removed.len() && (#[trigger] removed[j]).id == id;
        let j0: int = if j < i { j } else { j + 1 };
        assert(removed[j] == items[j0]);
        assert(items[j0].id == items[i].id);
    }
}

/// Law: the most recently inserted record wins hit-testing wherever it covers
/// the query point, whatever older records lie beneath it.
pub proof fn lemma_hit_topmost(items: Seq<Item>, it: Item, x: int, y: int)
    requires
        covers(it, x, y),
    ensures
        spec_hit(items.push(it), x, y) == Some(it.id),
{
    assert(items.push(it).last() == it);
}

/// Law: a point covered by no record hits nothing.
pub proof fn lemma_hit_none(items: Seq<Item>, x: int, y: int)
    requires
        forall|i: int| 0 <= i < items.len() ==> !covers(#[trigger] items[i], x, y),
    ensures
        spec_hit(items, x, y) == None::<usize>,
    decreases items.len(),
{
    if items.len() > 0 {
        assert(items.last() == items[items.len() - 1]);
        assert forall|i: int| 0 <= i < items.drop_last().len() implies !covers(
            #[trigger] items.drop_last()[i], x, y) by {
            assert(items.drop_last()[i] == items[i]);
        }
        lemma_hit_none(items.drop_last(), x, y);
    }
}

/// After replacing the binding at index `i` (whose key was `inp`) with
/// `(inp, fun)`, looking the key up yields the new effect and every other key
/// keeps its effect.
proof fn lemma_eff_lookup(
    pre: Seq<(usize, Effect)>,
    post: Seq<(usize, Effect)>,
    inp: usize,
    fun: Effect,
    i: int,
)
    requires
        keys_distinct(pre),
        0 <= i < pre.len(),
        pre[i].0 == inp,
        post == pre.update(i, (inp, fun)),
    ensures
        keys_distinct(post),
        eff_of(post, inp) == Some(fun),
        forall|k: usize| k != inp ==> #[trigger] eff_of(post, k) == eff_of(pre, k),
{
    assert forall|a: int, b: int| 0 <= a < b < post.len() implies (#[trigger] post[a]).0 != (
    #[trigger] post[b]).0 by {
        assert(pre[a].0 != pre[b].0);
    }
    assert(post[i].0 == inp);
    assert(has_key(post, inp));
    let ki = key_idx(post, inp);
    assert(0 <= ki < post.len() && post[ki].0 == inp);
    assert(ki == i);
    assert forall|k: usize| k != inp implies #[trigger] eff_of(post, k) == eff_of(pre, k) by {
        if has_key(pre, k) {
            let a = key_idx(pre, k);
            assert(0 <= a < pre.len() && pre[a].0 == k);
            assert(a != i);
            assert(post[a] == pre[a]);
            assert(has_key(post, k));
            let b = key_idx(post, k);
            assert(0 <= b < post.len() && post[b].0 == k);
            assert(b == a);
        } else {
            if has_key(post, k) {
                let b = key_idx(post, k);
                assert(0 <= b < post.len() && post[b].0 == k);
                assert(b != i);
                assert(pre[b] == post[b]);
                assert(has_key(pre, k));
            }
        }
    }
}

/// After appending a binding for a key that was unbound, looking the key up
/// yields the new effect and every other key keeps its effect.
proof fn lemma_eff_append(
    pre: Seq<(usize, Effect)>,
    post: Seq<(usize, Effect)>,
    inp: usize,
    fun: Effect,
)
    requires
        keys_distinct(pre),
        !has_key(pre, inp),
        post == pre.push((inp, fun)),
    ensures
        keys_distinct(post),
        eff_of(post, inp) == Some(fun),
        forall|k: usize| k != inp ==> #[trigger] eff_of(post, k) == eff_of(pre, k),
{
    assert(post[pre.len() as int] == (inp, fun));
    assert forall|a: int, b: int| 0 <= a < b < post.len() implies (#[trigger] post[a]).0 != (
    #[trigger] post[b]).0 by {
        if b < pre.len() {
            assert(pre[a].0 != pre[b].0);
        } else {
            assert(post[a] == pre[a]);
            if pre[a].0 == inp {
                assert(has_key(pre, inp));
            }
        }
    }
    assert(has_key(post, inp));
    let ki = key_idx(post, inp);
    assert(0 <= ki < post.len() && post[ki].0 == inp);
    if ki < pre.len() {
        assert(pre[ki] == post[ki]);
        assert(has_key(pre, inp));
    }
    assert(ki == pre.len() as int);
    assert forall|k: usize| k != inp implies #[trigger] eff_of(post, k) == eff_of(pre, k) by {
        if has_key(pre, k) {
            let a = key_idx(pre, k);
            assert(0 <= a < pre.len() && pre[a].0 == k);
            assert(post[a] == pre[a]);
            assert(has_key(post, k));
            let b = key_idx(post, k);
            assert(0 <= b < post.len() && post[b].0 == k);
            assert(b == a);
        } else {
            if has_key(post, k) {
                let b = key_idx(post, k);
                assert(0 <= b < post.len() && post[b].0 == k);
                assert(b < pre.len());
                assert(pre[b] == post[b]);
                assert(has_key(pre, k));
            }
        }
    }
}

/// A buffer of `n` pixels, all of one colour.
pub fn fill(n: usize, c: u32) -> (v: Vec<u32>)
    ensures
        v@ == filled(n as nat, c),
{
    let mut v: Vec<u32> = Vec::new();
    let mut i: usize = 0;
    while i < n
        invariant
            i <= n,
            v@.len() == i,
            forall|k: int| 0 <= k < i ==> #[trigger] v@[k] == c,
        decreases n - i,
    {
        v.push(c);
        i += 1;
    }
    proof {
        assert(v@ =~= filled(n as nat, c));
    }
    v
}

} // verus!
