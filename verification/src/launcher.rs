use vstd::prelude::*;
use vstd::string::StringExecFns;
use crate::desktop::{DesktopEntry, DesktopEntryView};
use crate::fuzzy::{fits_table, lemma_score_order, score_of, search_in_chars, Score};
use crate::shell::{shell_words, split_words};
use crate::text::chars_of;

verus! {

broadcast use vstd::string::group_string_axioms;

/// What the user did in the launcher window.
pub enum Msg {
    /// The icon font was loaded.
    FontLoaded,
    /// The search box now holds this text.
    SearchTextChanged(String),
    /// The icon font could not be loaded.
    CouldNotLoadFont,
    EnterPressed,
    EscapePressed,
    UpPressed,
    DownPressed,
    CtrlEnterPressed,
}

/// What the launcher asks its window to do after a message.
pub enum Action {
    /// Keep running.
    Nothing,
    /// Close the launcher.
    Exit,
    /// Start this program (the first word) with these arguments (the rest);
    /// close the launcher if it starts, else report the failure with
    /// `spawn_failed`.
    Spawn(Vec<String>),
}

/// A candidate ahead of another one in the result list: a smaller score, or
/// the same score and an earlier entry.
pub open spec fn ranked_before(x: (Score, usize), y: (Score, usize)) -> bool {
    x.0.less_than(y.0) || (!y.0.less_than(x.0) && x.1 < y.1)
}

/// The best score of entry `i` against `term`: the smallest of one, the score
/// of its name and the score of its command, the earliest of these on ties.
pub open spec fn best_score(term: Seq<char>, entries: Seq<DesktopEntryView>, i: int) -> Score {
    let by_name = score_of(term, entries[i].name);
    let so_far = if by_name.less_than(Score::worst()) { by_name } else { Score::worst() };
    let by_cmd = score_of(term, entries[i].cmd);
    if by_cmd.less_than(so_far) { by_cmd } else { so_far }
}

/// Every entry with its best score, in the order of the entries.
pub open spec fn candidates(term: Seq<char>, entries: Seq<DesktopEntryView>) -> Seq<(Score, usize)> {
    Seq::new(entries.len(), |i: int| (best_score(term, entries, i), i as usize))
}

/// `res` lists every entry once, with its best score, best first.
pub open spec fn is_ranking(res: Seq<(Score, usize)>, term: Seq<char>, entries: Seq<DesktopEntryView>) -> bool {
    &&& res.to_multiset() == candidates(term, entries).to_multiset()
    &&& forall|k: int|
        0 <= k < res.len() ==> (#[trigger] res[k]).1 < entries.len() && res[k].0 == best_score(
            term,
            entries,
            res[k].1 as int,
        )
    &&& forall|j: int, k: int| 0 <= j < k < res.len() ==> ranked_before(#[trigger] res[j], #[trigger] res[k])
}

/// The results are empty, or list every entry once, ranked for some search
/// term: a permutation of the entries.
#[verifier::opaque]
pub open spec fn ranks_entries(results: Seq<(Score, usize)>, entries: Seq<DesktopEntryView>) -> bool {
    results.len() == 0 || exists|term: Seq<char>| #[trigger] is_ranking(results, term, entries)
}

/// The tables needed to score every entry against `term` fit in memory.
pub open spec fn search_fits(term: Seq<char>, entries: Seq<DesktopEntryView>) -> bool {
    forall|i: int|
        0 <= i < entries.len() ==> fits_table(term, #[trigger] entries[i].name) && fits_table(
            term,
            entries[i].cmd,
        )
}

/// The launcher: the desktop entries, what is typed in the search box, the
/// ranked results, the result picked with the arrow keys (with the text the
/// search box held before), and the last error of starting a program.
pub struct Launcher {
    search_text: String,
    entries: Vec<DesktopEntry>,
    strings: Vec<Vec<char>>,
    results: Vec<(Score, usize)>,
    selected_idx: Option<(usize, String)>,
    exec_error: Option<String>,
}

/// The launcher seen through the texts it holds.
#[verifier::ext_equal]
pub struct LauncherView {
    pub search_text: Seq<char>,
    pub entries: Seq<DesktopEntryView>,
    pub results: Seq<(Score, usize)>,
    pub selected: Option<(usize, Seq<char>)>,
    pub exec_error: Option<Seq<char>>,
}

impl View for Launcher {
    type V = LauncherView;

    closed spec fn view(&self) -> LauncherView {
        LauncherView {
            search_text: self.search_text@,
            entries: self.entries@.map_values(|e: DesktopEntry| e@),
            results: self.results@,
            selected: match self.selected_idx {
                Some((i, s)) => Some((i, s@)),
                None => None,
            },
            exec_error: match self.exec_error {
                Some(e) => Some(e@),
                None => None,
            },
        }
    }
}

/// The command of the entry behind result `k`.
pub open spec fn result_cmd(v: LauncherView, k: int) -> Seq<char> {
    v.entries[v.results[k].1 as int].cmd
}

impl Launcher {
    /// The names and commands kept as characters for scoring match the
    /// entries, every result points at an entry and the picked result exists.
    pub closed spec fn well_formed(&self) -> bool {
        &&& self.strings@.len() == 2 * self.entries@.len()
        &&& forall|i: int|
            0 <= i < self.entries@.len() ==> (#[trigger] self.strings@[2 * i])@
                == self.entries@[i].name@ && self.strings@[2 * i + 1]@ == self.entries@[i].cmd@
        &&& forall|k: int| 0 <= k < self.results@.len() ==> (#[trigger] self.results@[k]).1 < self.entries@.len()
        &&& self.results@.len() <= self.entries@.len()
        &&& self.selected_idx matches Some((i, _)) ==> i < self.results@.len()
    }

    /// The `k`-th string kept for scoring is the name (for even `k`) or the
    /// command (for odd `k`) of entry `k / 2`.
    proof fn lemma_string(&self, k: int)
        requires
            self.well_formed(),
            0 <= k < self.strings@.len(),
        ensures
            0 <= k / 2 < self@.entries.len(),
            k % 2 == 0 ==> self.strings@[k]@ == self@.entries[k / 2].name,
            k % 2 == 1 ==> self.strings@[k]@ == self@.entries[k / 2].cmd,
    {
        let e = k / 2;
        assert(k == 2 * e || k == 2 * e + 1);
        assert(self@.entries[e] == self.entries@[e]@);
        assert(self.strings@[2 * e]@ == self.entries@[e].name@);
    }

    /// A launcher over `entries`, with an empty search box and no results.
    pub fn new(entries: Vec<DesktopEntry>) -> (res: Self)
        ensures
            res.well_formed(),
            consistent(res@),
            ranks_entries(res@.results, res@.entries),
            res@.entries == entries@.map_values(|e: DesktopEntry| e@),
            res@.search_text.len() == 0,
            res@.results.len() == 0,
            res@.selected is None,
            res@.exec_error is None,
    {
        let mut strings: Vec<Vec<char>> = Vec::new();
        let mut i: usize = 0;
        while i < entries.len()
            invariant
                i <= entries@.len(),
                strings@.len() == 2 * i,
                forall|j: int|
                    0 <= j < i ==> (#[trigger] strings@[2 * j])@ == entries@[j].name@
                        && strings@[2 * j + 1]@ == entries@[j].cmd@,
            decreases entries@.len() - i,
        {
            let ghost before = strings@;
            strings.push(chars_of(entries[i].name.as_str()));
            strings.push(chars_of(entries[i].cmd.as_str()));
            proof {
                assert forall|j: int| 0 <= j < i + 1 implies (#[trigger] strings@[2 * j])@
                    == entries@[j].name@ && strings@[2 * j + 1]@ == entries@[j].cmd@ by {
                    if j < i {
                        assert(strings@[2 * j] == before[2 * j]);
                        assert(strings@[2 * j + 1] == before[2 * j + 1]);
                    } else {
                        assert(strings@[2 * j] == strings@[2 * i as int]);
                        assert(strings@[2 * i as int]@ == entries@[j].name@);
                        assert(strings@[2 * i as int + 1]@ == entries@[j].cmd@);
                    }
                }
            }
            assert(forall|j: int|
                    0 <= j < i + 1 ==> (#[trigger] strings@[2 * j])@ == entries@[j].name@
                        && strings@[2 * j + 1]@ == entries@[j].cmd@);
            i += 1;
        }
        let res = Launcher {
            search_text: String::new(),
            entries,
            strings,
            results: Vec::new(),
            selected_idx: None,
            exec_error: None,
        };
        proof {
            reveal(ranks_entries);
        }
        res
    }

    /// Whether the entries can be scored against `term` (see `search_fits`).
    pub fn can_search(&self, term: &str) -> (res: bool)
        requires
            self.well_formed(),
        ensures
            res == search_fits(term@, self@.entries),
    {
        let n = term.unicode_len();
        let mut i: usize = 0;
        while i < self.strings.len()
            invariant
                self.well_formed(),
                n == term@.len(),
                i <= self.strings@.len(),
                forall|k: int| 0 <= k < i ==> fits_table(term@, #[trigger] self.strings@[k]@),
            decreases self.strings@.len() - i,
        {
            let m = self.strings[i].len();
            if !fits(n, m) {
                proof {
                    let e = i as int / 2;
                    self.lemma_string(i as int);
                    assert(!fits_table(term@, self@.entries[e].name) || !fits_table(term@, self@.entries[e].cmd));
                }
                return false;
            }
            i += 1;
        }
        proof {
            assert forall|e: int| 0 <= e < self@.entries.len() implies fits_table(
                term@,
                #[trigger] self@.entries[e].name,
            ) && fits_table(term@, self@.entries[e].cmd) by {
                assert(self@.entries[e] == self.entries@[e]@);
                assert(fits_table(term@, self.strings@[2 * e]@));
                assert(fits_table(term@, self.strings@[2 * e + 1]@));
            }
        }
        true
    }

    /// Ranks every entry against `txt` (see `is_ranking`).
    pub fn do_fuzzy_search(&mut self, txt: &str)
        requires
            old(self).well_formed(),
            search_fits(txt@, old(self)@.entries),
        ensures
            final(self).well_formed(),
            is_ranking(final(self)@.results, txt@, old(self)@.entries),
            final(self)@.search_text == old(self)@.search_text,
            final(self)@.entries == old(self)@.entries,
            final(self)@.selected == old(self)@.selected,
            final(self)@.exec_error == old(self)@.exec_error,
    {
        let ghost entries = self@.entries;
        let term = chars_of(txt);
        let mut mapped: Vec<&[char]> = Vec::new();
        let mut i: usize = 0;
        while i < self.strings.len()
            invariant
                self.well_formed(),
                entries == self@.entries,
                i <= self.strings@.len(),
                mapped@.len() == i,
                forall|k: int| 0 <= k < i ==> (#[trigger] mapped@[k])@ == self.strings@[k]@,
            decreases self.strings@.len() - i,
        {
            mapped.push(self.strings[i].as_slice());
            i += 1;
        }
        proof {
            assert forall|k: int| 0 <= k < mapped@.len() implies fits_table(
                term@,
                #[trigger] mapped@[k]@,
            ) by {
                let e = k / 2;
                self.lemma_string(k);
                assert(fits_table(txt@, entries[e].name) && fits_table(txt@, entries[e].cmd));
            }
        }
        let scores = search_in_chars(term.as_slice(), mapped.as_slice());
        let n = self.entries.len();
        let total = self.strings.len();
        let mut res: Vec<(Score, usize)> = Vec::new();
        let mut e: usize = 0;
        assert(res@ =~= candidates(txt@, entries).take(0));
        while e < n
            invariant
                self.well_formed(),
                entries == self@.entries,
                n == entries.len(),
                total == 2 * n,
                e <= n,
                scores@.len() == 2 * n,
                mapped@.len() == 2 * n,
                term@ == txt@,
                forall|k: int| 0 <= k < 2 * n ==> #[trigger] scores@[k] == score_of(term@, mapped@[k]@),
                forall|k: int| 0 <= k < 2 * n ==> (#[trigger] mapped@[k])@ == self.strings@[k]@,
                res@.len() == e,
                res@.to_multiset() == candidates(txt@, entries).take(e as int).to_multiset(),
                forall|k: int|
                    0 <= k < res@.len() ==> (#[trigger] res@[k]).1 < e && res@[k].0 == best_score(
                        txt@,
                        entries,
                        res@[k].1 as int,
                    ),
                forall|j: int, k: int|
                    0 <= j < k < res@.len() ==> ranked_before(#[trigger] res@[j], #[trigger] res@[k]),
            decreases n - e,
        {
            let by_name = scores[2 * e];
            let by_cmd = scores[2 * e + 1];
            let worst = Score { distance: 1, longest: 1 };
            let so_far = if by_name.is_less_than(&worst) { by_name } else { worst };
            let best = if by_cmd.is_less_than(&so_far) { by_cmd } else { so_far };
            proof {
                let ei = e as int;
                self.lemma_string(2 * ei);
                self.lemma_string(2 * ei + 1);
                assert(mapped@[2 * ei]@ == self.strings@[2 * ei]@);
                assert(mapped@[2 * ei + 1]@ == self.strings@[2 * ei + 1]@);
                assert(scores@[2 * ei] == score_of(term@, mapped@[2 * ei]@));
                assert(scores@[2 * ei + 1] == score_of(term@, mapped@[2 * ei + 1]@));
                assert(term@ == txt@);
                assert(entries[ei].name == self.strings@[2 * ei]@);
                assert(by_name == score_of(txt@, entries[ei].name));
                assert(by_cmd == score_of(txt@, entries[ei].cmd));
                assert(worst == Score::worst());
                assert(best == best_score(txt@, entries, ei));
            }
            let item = (best, e);
            // the first result that the new one goes before
            let mut p: usize = 0;
            while p < res.len() && !(best.is_less_than(&res[p].0) || (!res[p].0.is_less_than(&best) && e < res[p].1))
                invariant
                    p <= res@.len(),
                    item == (best, e),
                    forall|j: int| 0 <= j < p ==> !ranked_before(item, #[trigger] res@[j]),
                decreases res@.len() - p,
            {
                p += 1;
            }
            proof {
                assert forall|j: int| 0 <= j < p implies ranked_before(#[trigger] res@[j], item) by {
                    assert(!ranked_before(item, res@[j]));
                    assert(res@[j].1 < e);
                }
                assert forall|j: int| p <= j < res@.len() implies ranked_before(item, #[trigger] res@[j]) by {
                    if j > p {
                        assert(ranked_before(res@[p as int], res@[j]));
                        lemma_score_order(item.0, res@[p as int].0, res@[j].0);
                    }
                }
            }
            let ghost old_res = res@;
            res.insert(p, item);
            proof {
                broadcast use vstd::seq_lib::to_multiset_insert, vstd::seq_lib::to_multiset_build;
                let cands = candidates(txt@, entries);
                assert(cands.take(e + 1) =~= cands.take(e as int).push(item));

                assert forall|j: int, k: int| 0 <= j < k < res@.len() implies ranked_before(
                    #[trigger] res@[j],
                    #[trigger] res@[k],
                ) by {
                    if j < p && k > p {
                        assert(res@[j] == old_res[j]);
                        assert(res@[k] == old_res[k - 1]);
                        assert(ranked_before(old_res[j], item));
                        assert(ranked_before(item, old_res[k - 1]));
                        lemma_score_order(old_res[j].0, item.0, old_res[k - 1].0);
                    } else if j < p && k == p {
                    } else if j == p {
                        assert(res@[k] == old_res[k - 1]);
                    } else if k < p {
                        assert(res@[j] == old_res[j] && res@[k] == old_res[k]);
                    } else {
                        assert(res@[j] == old_res[j - 1] && res@[k] == old_res[k - 1]);
                    }
                }
                assert forall|k: int| 0 <= k < res@.len() implies (#[trigger] res@[k]).1 < e + 1
                    && res@[k].0 == best_score(txt@, entries, res@[k].1 as int) by {
                    if k < p {
                        assert(res@[k] == old_res[k]);
                    } else if k > p {
                        assert(res@[k] == old_res[k - 1]);
                    }
                }
            }
            e += 1;
        }
        proof {
            assert(candidates(txt@, entries).take(n as int) =~= candidates(txt@, entries));
        }
        self.results = res;
    }
}

/// The picked result, if any, is a result whose command is in the search
/// box: what the arrow keys leave behind.
pub open spec fn consistent(v: LauncherView) -> bool {
    v.selected matches Some((i, _)) ==> i < v.results.len() && v.search_text == result_cmd(v, i as int)
}

/// The error shown when Enter is pressed on a text without any word.
pub open spec fn no_command_error() -> Seq<char> {
    "No command to execute (String is empty)"@
}

/// The error shown when a program could not be started, for `reason`.
pub open spec fn spawn_error(reason: Seq<char>) -> Seq<char> {
    "Could not spawn child: "@ + reason
}

/// The launcher after the up arrow: the previous result is picked and its
/// command put in the search box; above the first result the saved text
/// comes back; with nothing picked, the last result is picked.
pub open spec fn after_up(v: LauncherView) -> LauncherView {
    match v.selected {
        Some((i, saved)) => if i == 0 {
            LauncherView { search_text: saved, selected: None, ..v }
        } else {
            LauncherView {
                search_text: result_cmd(v, i - 1),
                selected: Some(((i - 1) as usize, saved)),
                ..v
            }
        },
        None => if v.results.len() == 0 {
            v
        } else {
            LauncherView {
                search_text: result_cmd(v, v.results.len() - 1),
                selected: Some(((v.results.len() - 1) as usize, v.search_text)),
                ..v
            }
        },
    }
}

/// The launcher after the down arrow: the next result is picked and its
/// command put in the search box; below the last result nothing is picked
/// (the box keeps its text); with nothing picked, the first result is picked.
pub open spec fn after_down(v: LauncherView) -> LauncherView {
    match v.selected {
        Some((i, saved)) => if i == v.results.len() - 1 {
            LauncherView { selected: None, ..v }
        } else {
            LauncherView {
                search_text: result_cmd(v, i + 1),
                selected: Some(((i + 1) as usize, saved)),
                ..v
            }
        },
        None => if v.results.len() == 0 {
            v
        } else {
            LauncherView {
                search_text: result_cmd(v, 0),
                selected: Some((0usize, v.search_text)),
                ..v
            }
        },
    }
}

/// The texts of a list of strings.
pub open spec fn texts(v: Seq<String>) -> Seq<Seq<char>> {
    v.map_values(|s: String| s@)
}

impl Launcher {
    /// Clears the results and the picked one, then ranks the entries
    /// against `txt` when it is not empty.
    fn search_changed(&mut self, txt: String)
        requires
            old(self).well_formed(),
            search_fits(txt@, old(self)@.entries),
        ensures
            final(self).well_formed(),
            final(self)@.entries == old(self)@.entries,
            final(self)@.search_text == txt@,
            final(self)@.selected is None,
            final(self)@.exec_error is None,
            txt@.len() == 0 ==> final(self)@.results.len() == 0,
            txt@.len() > 0 ==> is_ranking(final(self)@.results, txt@, old(self)@.entries),
            ranks_entries(final(self)@.results, final(self)@.entries),
    {
        self.exec_error = None;
        self.results.clear();
        self.selected_idx = None;
        if !txt.as_str().is_empty() {
            self.do_fuzzy_search(txt.as_str());
        }
        let ghost t = txt@;
        let ghost before = self@;
        self.search_text = txt;
        proof {
            assert(self@.results == before.results && self@.entries == before.entries);
            reveal(ranks_entries);
            if t.len() > 0 {
                assert(is_ranking(self@.results, t, self@.entries));
            }
        }
    }

    /// Handles one message; see `Action` for what the window does next.
    pub fn update(&mut self, msg: Msg) -> (act: Action)
        requires
            old(self).well_formed(),
            msg matches Msg::SearchTextChanged(t) ==> search_fits(t@, old(self)@.entries),
        ensures
            final(self).well_formed(),
            final(self)@.entries == old(self)@.entries,
            consistent(old(self)@) ==> consistent(final(self)@),
            ranks_entries(old(self)@.results, old(self)@.entries) ==> ranks_entries(
                final(self)@.results,
                final(self)@.entries,
            ),
            match msg {
                Msg::SearchTextChanged(t) => {
                    &&& act is Nothing
                    &&& final(self)@.search_text == t@
                    &&& final(self)@.selected is None
                    &&& final(self)@.exec_error is None
                    &&& t@.len() == 0 ==> final(self)@.results.len() == 0
                    &&& t@.len() > 0 ==> is_ranking(final(self)@.results, t@, old(self)@.entries)
                },
                Msg::FontLoaded | Msg::CouldNotLoadFont => act is Nothing && final(self)@ == old(self)@,
                Msg::EnterPressed => if old(self)@.search_text.len() == 0 {
                    act is Exit && final(self)@ == old(self)@
                } else if shell_words(old(self)@.search_text).len() > 0 {
                    &&& act matches Action::Spawn(args) && texts(args@) == shell_words(old(self)@.search_text)
                    &&& final(self)@ == old(self)@
                } else {
                    &&& act is Nothing
                    &&& final(self)@ == (LauncherView { exec_error: Some(no_command_error()), ..old(self)@ })
                },
                Msg::EscapePressed => act is Exit && final(self)@ == old(self)@,
                Msg::UpPressed => act is Nothing && final(self)@ == after_up(old(self)@),
                Msg::DownPressed => act is Nothing && final(self)@ == after_down(old(self)@),
                Msg::CtrlEnterPressed => {
                    &&& act matches Action::Spawn(args) && texts(args@) == seq!["/bin/sh"@, "-c"@, old(self)@.search_text]
                    &&& final(self)@ == old(self)@
                },
            },
    {
        match msg {
            Msg::SearchTextChanged(txt) => {
                self.search_changed(txt);
                Action::Nothing
            },
            Msg::FontLoaded => Action::Nothing,
            Msg::CouldNotLoadFont => Action::Nothing,
            Msg::EnterPressed => {
                if self.search_text.as_str().is_empty() {
                    return Action::Exit;
                }
                let args = split_words(self.search_text.as_str());
                if args.len() > 0 {
                    Action::Spawn(args)
                } else {
                    self.exec_error = Some("No command to execute (String is empty)".to_owned());
                    Action::Nothing
                }
            },
            Msg::EscapePressed => Action::Exit,
            Msg::UpPressed => {
                let mut idx: Option<(usize, String)> = None;
                core::mem::swap(&mut idx, &mut self.selected_idx);
                self.selected_idx = match idx {
                    Some((i, s)) => {
                        if i == 0 {
                            self.search_text = s;
                            None
                        } else {
                            self.search_text = self.entries[self.results[i - 1].1].cmd.clone();
                            Some((i - 1, s))
                        }
                    },
                    None => {
                        if self.results.len() == 0 {
                            None
                        } else {
                            let newidx = self.results.len() - 1;
                            let mut old = self.entries[self.results[newidx].1].cmd.clone();
                            core::mem::swap(&mut old, &mut self.search_text);
                            Some((newidx, old))
                        }
                    },
                };
                Action::Nothing
            },
            Msg::DownPressed => {
                let mut idx: Option<(usize, String)> = None;
                core::mem::swap(&mut idx, &mut self.selected_idx);
                self.selected_idx = match idx {
                    Some((i, s)) => {
                        if i == self.results.len() - 1 {
                            None
                        } else {
                            self.search_text = self.entries[self.results[i + 1].1].cmd.clone();
                            Some((i + 1, s))
                        }
                    },
                    None => {
                        if self.results.len() == 0 {
                            None
                        } else {
                            let mut old = self.entries[self.results[0].1].cmd.clone();
                            core::mem::swap(&mut old, &mut self.search_text);
                            Some((0, old))
                        }
                    },
                };
                Action::Nothing
            },
            Msg::CtrlEnterPressed => {
                let mut args: Vec<String> = Vec::new();
                args.push("/bin/sh".to_owned());
                args.push("-c".to_owned());
                args.push(self.search_text.clone());
                assert(texts(args@) =~= seq!["/bin/sh"@, "-c"@, self@.search_text]);
                Action::Spawn(args)
            },
        }
    }

    /// Records that the program could not be started, for `reason`.
    pub fn spawn_failed(&mut self, reason: &str)
        requires
            old(self).well_formed(),
        ensures
            final(self).well_formed(),
            final(self)@ == (LauncherView { exec_error: Some(spawn_error(reason@)), ..old(self)@ }),
            consistent(old(self)@) ==> consistent(final(self)@),
            ranks_entries(old(self)@.results, old(self)@.entries) ==> ranks_entries(
                final(self)@.results,
                final(self)@.entries,
            ),
    {
        let ghost before = self@;
        let mut message = "Could not spawn child: ".to_owned();
        message.append(reason);
        self.exec_error = Some(message);
        assert(self@.results == before.results && self@.entries == before.entries);
    }

    /// The text in the search box.
    pub fn search_text(&self) -> (res: &str)
        ensures
            res@ == self@.search_text,
    {
        self.search_text.as_str()
    }

    /// The desktop entries.
    pub fn entries(&self) -> (res: &[DesktopEntry])
        ensures
            res@.map_values(|e: DesktopEntry| e@) == self@.entries,
    {
        self.entries.as_slice()
    }

    /// The ranked results: scores and entry positions.
    pub fn results(&self) -> (res: &[(Score, usize)])
        ensures
            res@ == self@.results,
    {
        self.results.as_slice()
    }

    /// The position in the results of the picked result, if any.
    pub fn selected(&self) -> (res: Option<usize>)
        ensures
            res == match self@.selected {
                Some((i, _)) => Some(i),
                None => None,
            },
    {
        match &self.selected_idx {
            Some((i, _)) => Some(*i),
            None => None,
        }
    }

    /// The last error of starting a program, if any.
    pub fn exec_error(&self) -> (res: Option<&str>)
        ensures
            match (res, self@.exec_error) {
                (Some(e), Some(v)) => e@ == v,
                (None, None) => true,
                _ => false,
            },
    {
        match &self.exec_error {
            Some(e) => Some(e.as_str()),
            None => None,
        }
    }
}

/// Pressing down and then up with nothing picked gives back the launcher as
/// it was, search text included.
pub proof fn lemma_down_then_up(v: LauncherView)
    requires
        v.selected is None,
    ensures
        after_up(after_down(v)) == v,
{
}

/// Pressing up and then down while a result other than the first is picked
/// gives back the launcher as it was.
pub proof fn lemma_up_then_down(v: LauncherView)
    requires
        consistent(v),
        v.selected matches Some((i, _)) && i > 0,
    ensures
        after_down(after_up(v)) == v,
{
}

/// Pressing down and then up while a result other than the last is picked
/// gives back the launcher as it was.
pub proof fn lemma_down_then_up_picked(v: LauncherView)
    requires
        consistent(v),
        v.selected matches Some((i, _)) && i + 1 < v.results.len(),
        v.results.len() <= usize::MAX,
    ensures
        after_up(after_down(v)) == v,
{
}

/// What the arrow keys pick: with nothing picked, up picks the last result
/// and down the first, saving the text of the search box; up from a result
/// picks the one before it and down the one after it; up from the first
/// result gives the saved text back and down from the last picks nothing.
/// Whatever is picked, its command is put in the search box. The results,
/// the entries and the error are left alone.
pub proof fn lemma_arrow_keys(v: LauncherView)
    requires
        consistent(v),
        v.results.len() <= usize::MAX,
    ensures
        after_up(v).results == v.results && after_up(v).entries == v.entries,
        after_down(v).results == v.results && after_down(v).entries == v.entries,
        after_up(v).exec_error == v.exec_error && after_down(v).exec_error == v.exec_error,
        v.selected is None && v.results.len() > 0 ==> {
            &&& after_up(v).selected matches Some((i, saved)) && i == v.results.len() - 1 && saved
                == v.search_text
            &&& after_up(v).search_text == v.entries[v.results[v.results.len() - 1].1 as int].cmd
            &&& after_down(v).selected matches Some((i, saved)) && i == 0 && saved == v.search_text
            &&& after_down(v).search_text == v.entries[v.results[0].1 as int].cmd
        },
        v.selected is None && v.results.len() == 0 ==> after_up(v) == v && after_down(v) == v,
        match v.selected {
            Some((i, saved)) => {
                &&& i > 0 ==> after_up(v).selected == Some(((i - 1) as usize, saved))
                    && after_up(v).search_text == v.entries[v.results[i - 1].1 as int].cmd
                &&& i == 0 ==> after_up(v).selected is None && after_up(v).search_text == saved
                &&& i + 1 < v.results.len() ==> after_down(v).selected == Some(((i + 1) as usize, saved))
                    && after_down(v).search_text == v.entries[v.results[i + 1].1 as int].cmd
                &&& i + 1 == v.results.len() ==> after_down(v).selected is None
                    && after_down(v).search_text == v.search_text
            },
            None => true,
        },
{
}

/// The score of an entry is the least of one, the score of its name and the
/// score of its command: no greater than any of them, and equal to one of
/// them.
pub proof fn lemma_best_score_is_least(term: Seq<char>, entries: Seq<DesktopEntryView>, i: int)
    requires
        0 <= i < entries.len(),
    ensures
        !score_of(term, entries[i].name).less_than(best_score(term, entries, i)),
        !score_of(term, entries[i].cmd).less_than(best_score(term, entries, i)),
        !(Score { distance: 1, longest: 1 }).less_than(best_score(term, entries, i)),
        best_score(term, entries, i) == score_of(term, entries[i].name) || best_score(term, entries, i)
            == score_of(term, entries[i].cmd) || best_score(term, entries, i) == (Score {
            distance: 1,
            longest: 1,
        }),
{
    let name = score_of(term, entries[i].name);
    let cmd = score_of(term, entries[i].cmd);
    let one = Score { distance: 1, longest: 1 };
    let best = best_score(term, entries, i);
    lemma_score_order(name, one, one);
    lemma_score_order(cmd, name, one);
    lemma_score_order(name, cmd, one);
    lemma_score_order(one, cmd, name);
    lemma_score_order(name, cmd, name);
    lemma_score_order(one, cmd, one);
    lemma_score_order(cmd, one, name);
    lemma_score_order(name, name, name);
    lemma_score_order(one, one, one);
    lemma_score_order(cmd, cmd, cmd);
}

/// Every result of a ranking carries the least score of its entry: no
/// greater than one, than the score of the entry's name, or than the score
/// of its command, and equal to one of these.
pub proof fn lemma_ranked_scores_are_least(res: Seq<(Score, usize)>, term: Seq<char>, entries: Seq<DesktopEntryView>)
    requires
        is_ranking(res, term, entries),
    ensures
        forall|k: int|
            0 <= k < res.len() ==> {
                let e = entries[(#[trigger] res[k]).1 as int];
                &&& !score_of(term, e.name).less_than(res[k].0)
                &&& !score_of(term, e.cmd).less_than(res[k].0)
                &&& !(Score { distance: 1, longest: 1 }).less_than(res[k].0)
                &&& res[k].0 == score_of(term, e.name) || res[k].0 == score_of(term, e.cmd) || res[k].0
                    == (Score { distance: 1, longest: 1 })
            },
{
    assert forall|k: int| 0 <= k < res.len() implies {
        let e = entries[(#[trigger] res[k]).1 as int];
        &&& !score_of(term, e.name).less_than(res[k].0)
        &&& !score_of(term, e.cmd).less_than(res[k].0)
        &&& !(Score { distance: 1, longest: 1 }).less_than(res[k].0)
        &&& res[k].0 == score_of(term, e.name) || res[k].0 == score_of(term, e.cmd) || res[k].0 == (Score {
            distance: 1,
            longest: 1,
        })
    } by {
        lemma_best_score_is_least(term, entries, res[k].1 as int);
    }
}

/// In a ranking, a result never has a smaller score than one before it, and
/// results with scores that stand for the same number come in the order of
/// their entries.
pub proof fn lemma_ranking_order(res: Seq<(Score, usize)>, term: Seq<char>, entries: Seq<DesktopEntryView>)
    requires
        is_ranking(res, term, entries),
    ensures
        forall|j: int, k: int| 0 <= j < k < res.len() ==> !(#[trigger] res[k]).0.less_than((#[trigger] res[j]).0),
        forall|j: int, k: int|
            0 <= j < k < res.len() && !(#[trigger] res[j]).0.less_than((#[trigger] res[k]).0) ==> res[j].1
                < res[k].1,
{
    assert forall|j: int, k: int| 0 <= j < k < res.len() implies !(#[trigger] res[k]).0.less_than(
        (#[trigger] res[j]).0,
    ) by {
        assert(ranked_before(res[j], res[k]));
        lemma_score_order(res[j].0, res[k].0, res[k].0);
    }
    assert forall|j: int, k: int|
        0 <= j < k < res.len() && !(#[trigger] res[j]).0.less_than((#[trigger] res[k]).0) implies res[j].1
        < res[k].1 by {
        assert(ranked_before(res[j], res[k]));
    }
}

/// `ranked_before` never holds both ways.
pub proof fn lemma_ranked_before_asymmetric(x: (Score, usize), y: (Score, usize))
    ensures
        !(ranked_before(x, y) && ranked_before(y, x)),
{
    lemma_score_order(x.0, y.0, y.0);
    lemma_score_order(y.0, x.0, x.0);
}

/// Two lists sorted by `ranked_before` that hold the same items are equal.
proof fn lemma_sorted_same(x: Seq<(Score, usize)>, y: Seq<(Score, usize)>)
    requires
        forall|j: int, k: int| 0 <= j < k < x.len() ==> ranked_before(#[trigger] x[j], #[trigger] x[k]),
        forall|j: int, k: int| 0 <= j < k < y.len() ==> ranked_before(#[trigger] y[j], #[trigger] y[k]),
        x.to_multiset() == y.to_multiset(),
    ensures
        x == y,
    decreases x.len(),
{
    broadcast use vstd::multiset::group_multiset_axioms, vstd::seq_lib::group_to_multiset_ensures;

    if x.len() == 0 || y.len() == 0 {
        assert(x.len() == x.to_multiset().len());
        assert(y.len() == y.to_multiset().len());
        assert(x =~= y);
    } else {
        assert(x.to_multiset().contains(y[0]));
        assert(y.to_multiset().contains(x[0]));
        let i = choose|i: int| 0 <= i < x.len() && x[i] == y[0];
        let j = choose|j: int| 0 <= j < y.len() && y[j] == x[0];
        if i > 0 && j > 0 {
            assert(ranked_before(x[0], x[i]));
            assert(ranked_before(y[0], y[j]));
            lemma_ranked_before_asymmetric(x[0], y[0]);
        }
        if i == 0 {
            assert(x[0] == y[0]);
        } else {
            assert(y[0] == x[0]);
        }
        assert(x.drop_first().to_multiset() =~= x.to_multiset().remove(x[0])) by {
            assert(x.remove(0) =~= x.drop_first());
        }
        assert(y.drop_first().to_multiset() =~= y.to_multiset().remove(y[0])) by {
            assert(y.remove(0) =~= y.drop_first());
        }
        lemma_sorted_same(x.drop_first(), y.drop_first());
        assert(x =~= y) by {
            assert forall|k: int| 0 <= k < x.len() implies x[k] == y[k] by {
                if k > 0 {
                    assert(x[k] == x.drop_first()[k - 1]);
                    assert(y[k] == y.drop_first()[k - 1]);
                }
            }
        }
    }
}

/// There is only one ranking of the entries for a search term: the result
/// list of a search is determined by the term and the entries.
pub proof fn lemma_ranking_unique(
    r1: Seq<(Score, usize)>,
    r2: Seq<(Score, usize)>,
    term: Seq<char>,
    entries: Seq<DesktopEntryView>,
)
    requires
        is_ranking(r1, term, entries),
        is_ranking(r2, term, entries),
    ensures
        r1 == r2,
{
    lemma_sorted_same(r1, r2);
}

/// Some result of `res` is entry `i`.
pub open spec fn lists_entry(res: Seq<(Score, usize)>, i: int) -> bool {
    exists|k: int| 0 <= k < res.len() && #[trigger] res[k].1 == i
}

/// Results that rank the entries, when there are any, list every entry
/// exactly once: their entry positions are a permutation of the entries.
pub proof fn lemma_ranking_is_permutation(res: Seq<(Score, usize)>, entries: Seq<DesktopEntryView>)
    requires
        ranks_entries(res, entries),
        res.len() > 0,
        entries.len() <= usize::MAX,
    ensures
        res.len() == entries.len(),
        forall|i: int| 0 <= i < entries.len() ==> #[trigger] lists_entry(res, i),
        forall|j: int, k: int| 0 <= j < k < res.len() ==> #[trigger] res[j].1 != #[trigger] res[k].1,
{
    broadcast use vstd::seq_lib::group_to_multiset_ensures;

    reveal(ranks_entries);
    let term = choose|term: Seq<char>| is_ranking(res, term, entries);
    let cands = candidates(term, entries);
    assert(res.len() == res.to_multiset().len());
    assert(cands.len() == cands.to_multiset().len());
    assert forall|i: int| 0 <= i < entries.len() implies #[trigger] lists_entry(res, i) by {
        assert(cands.contains(cands[i]));
        assert(res.to_multiset().count(cands[i]) > 0);
        assert(res.contains(cands[i]));
        let k = choose|k: int| 0 <= k < res.len() && res[k] == cands[i];
        assert(res[k].1 == i);
    }
    assert forall|j: int, k: int| 0 <= j < k < res.len() implies #[trigger] res[j].1 != #[trigger] res[k].1 by {
        if res[j].1 == res[k].1 {
            assert(res[j] == res[k]);
            assert(ranked_before(res[j], res[k]));
            lemma_score_order(res[j].0, res[j].0, res[j].0);
        }
    }
}

/// Whether tables for strings of `n` and `m` characters fit in memory.
fn fits(n: usize, m: usize) -> (res: bool)
    ensures
        res == (n * m <= usize::MAX && 3 * (n + m) <= i64::MAX && 3 * (n + m) <= usize::MAX),
{
    let (a, b) = (n as u128, m as u128);
    proof {
        assert(a * b <= u128::MAX) by (nonlinear_arith)
            requires
                a <= usize::MAX,
                b <= usize::MAX,
        ;
    }
    a * b <= usize::MAX as u128 && 3 * (a + b) <= i64::MAX as u128 && 3 * (a + b) <= usize::MAX as u128
}

} // verus!
