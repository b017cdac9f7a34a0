//! The selection model behind the interactive search list: the offered
//! packs, the cursor, the packs picked, and the one peer they come from.
use vstd::prelude::*;

verus! {

/// One pack offered by the search index.
pub struct SearchResultItem {
    pub bot_id: u16,
    pub pack: u32,
    pub name: String,
    pub size: String,
}

/// A key the selection list reacts to.
#[derive(PartialEq, Eq, Structural, Clone, Copy, Debug)]
pub enum Key {
    /// Pick or unpick the pack under the cursor.
    Enter,
    /// Download what was picked.
    Download,
    /// Leave without downloading.
    Quit,
    Down,
    Up,
    Other,
}

/// The items offered by peer `bot`, in their order.
pub open spec fn keep_bot(items: Seq<SearchResultItem>, bot: u16) -> Seq<SearchResultItem>
    decreases items.len(),
{
    if items.len() == 0 {
        seq![]
    } else {
        let front = keep_bot(items.drop_last(), bot);
        if items.last().bot_id == bot {
            front.push(items.last())
        } else {
            front
        }
    }
}

/// The first place where `t` stands in `s`, or `s.len()`.
pub open spec fn index_of(s: Seq<usize>, t: usize) -> int
    decreases s.len(),
{
    if s.len() == 0 {
        0
    } else if s[0] == t {
        0
    } else {
        1 + index_of(s.drop_first(), t)
    }
}

/// `sel` with `t` added when absent, or with its first occurrence removed
/// (the last element taking its place) when present.
pub open spec fn toggled(sel: Seq<usize>, t: usize) -> Seq<usize> {
    if sel.contains(t) {
        let i = index_of(sel, t);
        sel.update(i, sel.last()).drop_last()
    } else {
        sel.push(t)
    }
}

/// The cursor one step down, wrapping to the top.
pub open spec fn cursor_down(c: Option<usize>, len: nat) -> Option<usize> {
    match c {
        None => Some(0),
        Some(i) => if i + 1 >= len {
            Some(0)
        } else {
            Some((i + 1) as usize)
        },
    }
}

/// The cursor one step up, wrapping to the bottom.
pub open spec fn cursor_up(c: Option<usize>, len: nat) -> Option<usize> {
    match c {
        None => Some(0),
        Some(i) => if i == 0 {
            Some((if len == 0 {
                0
            } else {
                len - 1
            }) as usize)
        } else {
            Some((i - 1) as usize)
        },
    }
}

/// The state of the selection list.
pub struct App {
    pub items: Vec<SearchResultItem>,
    pub cursor: Option<usize>,
    pub selected: Vec<usize>,
    pub in_bot: Option<u16>,
    pub download: bool,
}

proof fn lemma_index_of(s: Seq<usize>, t: usize)
    ensures
        0 <= index_of(s, t) <= s.len(),
        s.contains(t) ==> index_of(s, t) < s.len() && s[index_of(s, t)] == t,
        forall|j: int| 0 <= j < index_of(s, t) ==> s[j] != t,
    decreases s.len(),
{
    if s.len() > 0 && s[0] != t {
        lemma_index_of(s.drop_first(), t);
        if s.contains(t) {
            let k = choose|k: int| 0 <= k < s.len() && s[k] == t;
            assert(s.drop_first()[k - 1] == t);
        }
        assert forall|j: int| 0 <= j < index_of(s, t) implies s[j] != t by {
            if j > 0 {
                assert(s[j] == s.drop_first()[j - 1]);
            }
        }
    }
}

/// What picking under the cursor does: the pack under the cursor is
/// picked, or unpicked if it was picked; the first pick fixes the peer and
/// leaves only its packs in the list, with no cursor. Without a pack under
/// the cursor nothing changes.
pub open spec fn toggle_effect(a: App, b: App) -> bool {
    &&& match a.cursor {
        Some(c) if c < a.items@.len() => {
            let item = a.items@[c as int];
            &&& b.selected@ == toggled(a.selected@, item.pack as usize)
            &&& match a.in_bot {
                None => b.in_bot == Some(item.bot_id) && b.items@ == keep_bot(
                    a.items@,
                    item.bot_id,
                ) && b.cursor is None,
                Some(_) => b.in_bot == a.in_bot && b.items == a.items && b.cursor == a.cursor,
            }
        },
        _ => b.selected == a.selected && b.items == a.items && b.in_bot == a.in_bot && b.cursor
            == a.cursor,
    }
    &&& b.download == a.download
}

impl App {
    /// A list of the offered packs, nothing picked, no cursor.
    pub fn new(items: Vec<SearchResultItem>) -> (r: App)
        ensures
            r.items@ == items@,
            r.cursor is None,
            r.selected@.len() == 0,
            r.in_bot is None,
            !r.download,
    {
        App { items, cursor: None, selected: Vec::new(), in_bot: None, download: false }
    }

    /// Keeps only the packs of the chosen peer, in their order, and clears
    /// the cursor.
    pub fn filter_items(&mut self)
        requires
            old(self).in_bot is Some,
        ensures
            final(self).items@ == keep_bot(old(self).items@, old(self).in_bot.unwrap()),
            final(self).cursor is None,
            final(self).selected == old(self).selected,
            final(self).in_bot == old(self).in_bot,
            final(self).download == old(self).download,
    {
        let bot = match self.in_bot {
            Some(b) => b,
            None => 0,
        };
        let mut all: Vec<SearchResultItem> = Vec::new();
        std::mem::swap(&mut all, &mut self.items);
        let mut kept: Vec<SearchResultItem> = Vec::new();
        let mut i: usize = 0;
        while i < all.len()
            invariant
                i <= all@.len(),
                kept@ == keep_bot(all@.take(i as int), bot),
            decreases all@.len() - i,
        {
            proof {
                assert(all@.take(i + 1).drop_last() =~= all@.take(i as int));
            }
            if all[i].bot_id == bot {
                let item = SearchResultItem {
                    bot_id: all[i].bot_id,
                    pack: all[i].pack,
                    name: all[i].name.clone(),
                    size: all[i].size.clone(),
                };
                kept.push(item);
            }
            i = i + 1;
        }
        proof {
            assert(all@.take(i as int) =~= all@);
        }
        self.items = kept;
        self.cursor = None;
    }

    /// Moves the cursor down, wrapping to the top.
    pub fn next(&mut self)
        ensures
            final(self).cursor == cursor_down(old(self).cursor, old(self).items@.len()),
            final(self).items == old(self).items,
            final(self).selected == old(self).selected,
            final(self).in_bot == old(self).in_bot,
            final(self).download == old(self).download,
    {
        self.cursor = match self.cursor {
            None => Some(0),
            Some(i) => if i >= self.items.len() || i + 1 >= self.items.len() {
                Some(0)
            } else {
                Some(i + 1)
            },
        };
    }

    /// Moves the cursor up, wrapping to the bottom.
    pub fn previous(&mut self)
        ensures
            final(self).cursor == cursor_up(old(self).cursor, old(self).items@.len()),
            final(self).items == old(self).items,
            final(self).selected == old(self).selected,
            final(self).in_bot == old(self).in_bot,
            final(self).download == old(self).download,
    {
        self.cursor = match self.cursor {
            None => Some(0),
            Some(i) => if i == 0 {
                if self.items.len() == 0 {
                    Some(0)
                } else {
                    Some(self.items.len() - 1)
                }
            } else {
                Some(i - 1)
            },
        };
    }

    /// Picks the pack under the cursor, or unpicks it if it was picked; the
    /// first pick fixes the peer, and the list then shows only its packs.
    pub fn toggle(&mut self)
        ensures
            toggle_effect(*old(self), *final(self)),
    {
        let c = match self.cursor {
            Some(c) => c,
            None => {
                return ;
            },
        };
        if c >= self.items.len() {
            return ;
        }
        let t = self.items[c].pack as usize;
        let bot = self.items[c].bot_id;
        let mut k: usize = 0;
        while k < self.selected.len() && self.selected[k] != t
            invariant
                k <= self.selected@.len(),
                forall|j: int| 0 <= j < k ==> self.selected@[j] != t,
            decreases self.selected@.len() - k,
        {
            k = k + 1;
        }
        proof {
            lemma_index_of(self.selected@, t);
        }
        if k < self.selected.len() {
            proof {
                assert(self.selected@.contains(t));
                if index_of(self.selected@, t) < k {
                    assert(self.selected@[index_of(self.selected@, t)] == t);
                }
            }
            self.selected.swap_remove(k);
        } else {
            proof {
                if self.selected@.contains(t) {
                    assert(self.selected@[index_of(self.selected@, t)] == t);
                }
            }
            self.selected.push(t);
        }
        if self.in_bot.is_none() {
            self.in_bot = Some(bot);
            self.filter_items();
        }
    }

    /// Reacts to one key; returns whether the list stays open.
    pub fn on_key(&mut self, key: Key) -> (r: bool)
        ensures
            r == !(key == Key::Download || key == Key::Quit),
            final(self).download == (old(self).download || key == Key::Download),
            key == Key::Down ==> final(self).cursor == cursor_down(
                old(self).cursor,
                old(self).items@.len(),
            ),
            key == Key::Up ==> final(self).cursor == cursor_up(
                old(self).cursor,
                old(self).items@.len(),
            ),
            key != Key::Enter ==> final(self).selected == old(self).selected && final(self).items
                == old(self).items && final(self).in_bot == old(self).in_bot,
            key == Key::Enter ==> toggle_effect(*old(self), *final(self)),
            key == Key::Download || key == Key::Quit || key == Key::Other ==> final(self).cursor
                == old(self).cursor,
    {
        match key {
            Key::Enter => {
                self.toggle();
                true
            },
            Key::Download => {
                self.download = true;
                false
            },
            Key::Quit => false,
            Key::Down => {
                self.next();
                true
            },
            Key::Up => {
                self.previous();
                true
            },
            Key::Other => true,
        }
    }

    /// What the user chose: the peer and the picked packs, when a download
    /// was asked for and a peer was fixed; else nothing.
    pub fn chosen(&self) -> (r: Option<(u16, &Vec<usize>)>)
        ensures
            match r {
                Some((bot, packs)) => self.download && self.in_bot == Some(bot) && packs
                    == &self.selected,
                None => !self.download || self.in_bot is None,
            },
    {
        if !self.download {
            return None;
        }
        match self.in_bot {
            Some(bot) => Some((bot, &self.selected)),
            None => None,
        }
    }
}

} // verus!
