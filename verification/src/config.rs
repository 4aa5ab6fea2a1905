//! User preferences and the list of recently opened files.
//!
//! The zoom is held as a whole percentage: steps of 10, between 50 and 300,
//! 100 by default.

use vstd::prelude::*;
use vstd::string::StringExecFns;
use crate::reader::Command;

verus! {

/// How many recent files are kept.
pub const MAX_RECENT: usize = 10;

/// Smallest zoom the zoom-out step reaches, in percent.
pub const ZOOM_MIN: u32 = 50;

/// Largest zoom the zoom-in step reaches, in percent.
pub const ZOOM_MAX: u32 = 300;

/// Zoom step, in percent.
pub const ZOOM_STEP: u32 = 10;

/// Default zoom, in percent.
pub const ZOOM_DEFAULT: u32 = 100;

/// Persisted preferences.
pub struct AppConfig {
    /// Dark theme on.
    pub dark_mode: bool,
    /// Zoom of the rendered text, in percent (100 = normal size).
    pub zoom_percent: u32,
    /// Outline side panel shown.
    pub show_toc: bool,
    /// Recently opened files, most recent first.
    pub recent_files: Vec<String>,
    /// The file opened last, reopened at start-up.
    pub last_file: Option<String>,
}

/// The texts of a list of strings.
pub open spec fn texts_of(v: Seq<String>) -> Seq<Seq<char>> {
    v.map_values(|s: String| s@)
}

/// `xs` without any element equal to `x`, order kept.
pub open spec fn without(xs: Seq<Seq<char>>, x: Seq<char>) -> Seq<Seq<char>>
    decreases xs.len(),
{
    if xs.len() == 0 {
        seq![]
    } else if xs.last() == x {
        without(xs.drop_last(), x)
    } else {
        without(xs.drop_last(), x).push(xs.last())
    }
}

/// The recent-file list after `p` is opened: `p` first, then the others in
/// their order without `p`, at most `MAX_RECENT` in all.
pub open spec fn recent_after_open(xs: Seq<Seq<char>>, p: Seq<char>) -> Seq<Seq<char>> {
    let all = seq![p] + without(xs, p);
    if all.len() > MAX_RECENT {
        all.take(MAX_RECENT as int)
    } else {
        all
    }
}

/// One zoom step in.
pub open spec fn zoomed_in(z: u32) -> u32 {
    if z >= ZOOM_MAX - ZOOM_STEP {
        ZOOM_MAX
    } else {
        (z + ZOOM_STEP) as u32
    }
}

/// One zoom step out.
pub open spec fn zoomed_out(z: u32) -> u32 {
    if z <= ZOOM_MIN + ZOOM_STEP {
        ZOOM_MIN
    } else {
        (z - ZOOM_STEP) as u32
    }
}

/// The preferences after `cmd`; the commands that do not touch the
/// preferences leave them as they are.
pub open spec fn settings_after(c: (bool, u32, bool), cmd: Command) -> (bool, u32, bool) {
    match cmd {
        Command::ToggleTheme => (!c.0, c.1, c.2),
        Command::ZoomIn => (c.0, zoomed_in(c.1), c.2),
        Command::ZoomOut => (c.0, zoomed_out(c.1), c.2),
        Command::ResetZoom => (c.0, ZOOM_DEFAULT, c.2),
        Command::ToggleToc => (c.0, c.1, !c.2),
        _ => c,
    }
}

/// Whether `cmd` changes the preferences, so that they must be saved.
pub open spec fn changes_settings(cmd: Command) -> bool {
    match cmd {
        Command::ToggleTheme | Command::ZoomIn | Command::ZoomOut | Command::ResetZoom
        | Command::ToggleToc => true,
        _ => false,
    }
}

/// What `without` keeps: the elements other than `x`, in order, so no
/// more of them than there were and no repeat where there was none.
pub proof fn lemma_without(xs: Seq<Seq<char>>, x: Seq<char>)
    ensures
        without(xs, x).len() <= xs.len(),
        forall|i: int|
            0 <= i < without(xs, x).len() ==> #[trigger] without(xs, x)[i] != x && xs.contains(
                without(xs, x)[i],
            ),
        !xs.contains(x) ==> without(xs, x) == xs,
        xs.no_duplicates() ==> without(xs, x).no_duplicates(),
    decreases xs.len(),
{
    if xs.len() > 0 {
        let prev = xs.drop_last();
        lemma_without(prev, x);
        let w = without(xs, x);
        let pw = without(prev, x);
        assert forall|i: int| 0 <= i < w.len() implies #[trigger] w[i] != x && xs.contains(
            w[i],
        ) by {
            if i < pw.len() {
                assert(w[i] == pw[i]);
                let k = choose|k: int| 0 <= k < prev.len() && prev[k] == pw[i];
                assert(xs[k] == prev[k]);
            } else {
                assert(w[i] == xs.last());
                assert(xs[xs.len() - 1] == xs.last());
            }
        }
        if !xs.contains(x) {
            assert(!prev.contains(x)) by {
                if prev.contains(x) {
                    let k = choose|k: int| 0 <= k < prev.len() && prev[k] == x;
                    assert(xs[k] == prev[k]);
                }
            }
            assert(xs[xs.len() - 1] == xs.last());
            assert(xs.last() != x);
            assert(prev.push(xs.last()) =~= xs);
        }
        if xs.no_duplicates() {
            assert(prev.no_duplicates()) by {
                assert forall|i: int, j: int| 0 <= i < prev.len() && 0 <= j < prev.len() && i != j
                    implies prev[i] != prev[j] by {
                    assert(prev[i] == xs[i] && prev[j] == xs[j]);
                }
            }
            if xs.last() != x {
                assert forall|i: int, j: int| 0 <= i < w.len() && 0 <= j < w.len() && i != j
                    implies w[i] != w[j] by {
                    if i < pw.len() && j < pw.len() {
                        assert(w[i] == pw[i] && w[j] == pw[j]);
                    } else if i < pw.len() {
                        let k = choose|k: int| 0 <= k < prev.len() && prev[k] == pw[i];
                        assert(xs[k] == prev[k]);
                        assert(xs[xs.len() - 1] == xs.last());
                        assert(w[i] == pw[i]);
                    } else if j < pw.len() {
                        let k = choose|k: int| 0 <= k < prev.len() && prev[k] == pw[j];
                        assert(xs[k] == prev[k]);
                        assert(xs[xs.len() - 1] == xs.last());
                        assert(w[j] == pw[j]);
                    }
                }
            }
        }
    }
}

/// Opening a file puts it first in the recent files, keeps at most
/// `MAX_RECENT` of them, keeps only files that were listed before besides
/// the opened one, lists the opened file once, never lists a file twice
/// when none was listed twice before, and opening the same file again right
/// away changes nothing.
pub proof fn lemma_recent_after_open(xs: Seq<Seq<char>>, p: Seq<char>)
    ensures
        1 <= recent_after_open(xs, p).len() <= MAX_RECENT,
        recent_after_open(xs, p)[0] == p,
        forall|i: int|
            1 <= i < recent_after_open(xs, p).len() ==> #[trigger] recent_after_open(xs, p)[i]
                != p && xs.contains(recent_after_open(xs, p)[i]),
        xs.no_duplicates() ==> recent_after_open(xs, p).no_duplicates(),
        recent_after_open(recent_after_open(xs, p), p) == recent_after_open(xs, p),
{
    let w = without(xs, p);
    lemma_without(xs, p);
    let all = seq![p] + w;
    let r = recent_after_open(xs, p);
    assert forall|i: int| 1 <= i < r.len() implies #[trigger] r[i] != p && xs.contains(r[i]) by {
        assert(r[i] == all[i]);
        assert(all[i] == w[i - 1]);
    }
    if xs.no_duplicates() {
        assert forall|i: int, j: int| 0 <= i < r.len() && 0 <= j < r.len() && i != j implies r[i]
            != r[j] by {
            assert(r[i] == all[i] && r[j] == all[j]);
            if i > 0 && j > 0 {
                assert(all[i] == w[i - 1] && all[j] == w[j - 1]);
            } else if i > 0 {
                assert(all[i] == w[i - 1]);
            } else {
                assert(all[j] == w[j - 1]);
            }
        }
    }
    // opening again: the rest of the list holds no `p`
    let rest = r.drop_first();
    assert(!rest.contains(p)) by {
        if rest.contains(p) {
            let k = choose|k: int| 0 <= k < rest.len() && rest[k] == p;
            assert(rest[k] == r[k + 1]);
        }
    }
    lemma_without(rest, p);
    lemma_without_prefix(p, rest);
    assert(seq![p] + rest =~= r);
}

/// Removing `x` from a list that starts with `x` removes that first entry
/// and leaves the rest to the removal.
proof fn lemma_without_prefix(x: Seq<char>, ys: Seq<Seq<char>>)
    ensures
        without(seq![x] + ys, x) == without(ys, x),
    decreases ys.len(),
{
    if ys.len() == 0 {
        let s = seq![x] + ys;
        assert(s.drop_last() =~= Seq::<Seq<char>>::empty());
        assert(s.last() == x);
        assert(without(s, x) == without(s.drop_last(), x));
    } else {
        lemma_without_prefix(x, ys.drop_last());
        assert((seq![x] + ys).drop_last() =~= seq![x] + ys.drop_last());
        assert((seq![x] + ys).last() == ys.last());
    }
}

/// A zoom in the range stays in the range after a step either way; a step
/// in undone by a step out gives the zoom back (below the top), and the
/// other way round (above the bottom).
pub proof fn lemma_zoom_steps(z: u32)
    ensures
        ZOOM_MIN <= z <= ZOOM_MAX ==> ZOOM_MIN <= zoomed_in(z) <= ZOOM_MAX,
        ZOOM_MIN <= z <= ZOOM_MAX ==> ZOOM_MIN <= zoomed_out(z) <= ZOOM_MAX,
        ZOOM_MIN <= z <= ZOOM_MAX - ZOOM_STEP ==> zoomed_out(zoomed_in(z)) == z,
        ZOOM_MIN + ZOOM_STEP <= z <= ZOOM_MAX ==> zoomed_in(zoomed_out(z)) == z,
{
}

/// Toggling the theme or the outline twice gives the preferences back.
pub proof fn lemma_toggle_twice(c: (bool, u32, bool))
    ensures
        settings_after(settings_after(c, Command::ToggleTheme), Command::ToggleTheme) == c,
        settings_after(settings_after(c, Command::ToggleToc), Command::ToggleToc) == c,
{
}

impl AppConfig {
    /// Theme, zoom and outline switch.
    pub open spec fn settings(&self) -> (bool, u32, bool) {
        (self.dark_mode, self.zoom_percent, self.show_toc)
    }

    /// Records `path` as opened: it moves to the front of the recent
    /// files, once, the list keeps at most `MAX_RECENT` entries, and it
    /// becomes the last file.
    pub fn push_recent(&mut self, path: &str)
        ensures
            texts_of(final(self).recent_files@) == recent_after_open(
                texts_of(old(self).recent_files@),
                path@,
            ),
            final(self).last_file matches Some(f) && f@ == path@,
            final(self).settings() == old(self).settings(),
    {
        let p = String::from_str(path);
        let mut list: Vec<String> = Vec::new();
        list.push(String::from_str(path));
        let ghost xs = texts_of(self.recent_files@);
        let n = self.recent_files.len();
        let mut i: usize = 0;
        assert(xs.take(0) =~= Seq::<Seq<char>>::empty());
        assert(texts_of(list@) =~= seq![path@] + without(xs.take(0), path@));
        while i < n
            invariant
                n == self.recent_files.len(),
                i <= n,
                xs == texts_of(self.recent_files@),
                p@ == path@,
                texts_of(list@) == seq![path@] + without(xs.take(i as int), path@),
            decreases n - i,
        {
            assert(xs.take(i + 1).drop_last() =~= xs.take(i as int));
            assert(xs.take(i + 1).last() == self.recent_files@[i as int]@);
            if self.recent_files[i] != p {
                let ghost before = list@;
                list.push(self.recent_files[i].clone());
                assert(texts_of(list@) =~= texts_of(before).push(self.recent_files@[i as int]@));
            }
            i = i + 1;
        }
        assert(xs.take(n as int) =~= xs);
        list.truncate(MAX_RECENT);
        assert(texts_of(list@) =~= recent_after_open(xs, path@));
        self.recent_files = list;
        self.last_file = Some(p);
    }

    /// Switches between the dark and the light theme.
    pub fn toggle_dark_mode(&mut self)
        ensures
            final(self).dark_mode == !old(self).dark_mode,
            final(self).zoom_percent == old(self).zoom_percent,
            final(self).show_toc == old(self).show_toc,
            final(self).recent_files@ == old(self).recent_files@,
            final(self).last_file == old(self).last_file,
    {
        self.dark_mode = !self.dark_mode;
    }

    /// Shows or hides the outline.
    pub fn toggle_toc(&mut self)
        ensures
            final(self).show_toc == !old(self).show_toc,
            final(self).dark_mode == old(self).dark_mode,
            final(self).zoom_percent == old(self).zoom_percent,
            final(self).recent_files@ == old(self).recent_files@,
            final(self).last_file == old(self).last_file,
    {
        self.show_toc = !self.show_toc;
    }

    /// One zoom step in, up to `ZOOM_MAX`.
    pub fn zoom_in(&mut self)
        ensures
            final(self).zoom_percent == zoomed_in(old(self).zoom_percent),
            final(self).dark_mode == old(self).dark_mode,
            final(self).show_toc == old(self).show_toc,
            final(self).recent_files@ == old(self).recent_files@,
            final(self).last_file == old(self).last_file,
    {
        self.zoom_percent = if self.zoom_percent >= ZOOM_MAX - ZOOM_STEP {
            ZOOM_MAX
        } else {
            self.zoom_percent + ZOOM_STEP
        };
    }

    /// One zoom step out, down to `ZOOM_MIN`.
    pub fn zoom_out(&mut self)
        ensures
            final(self).zoom_percent == zoomed_out(old(self).zoom_percent),
            final(self).dark_mode == old(self).dark_mode,
            final(self).show_toc == old(self).show_toc,
            final(self).recent_files@ == old(self).recent_files@,
            final(self).last_file == old(self).last_file,
    {
        self.zoom_percent = if self.zoom_percent <= ZOOM_MIN + ZOOM_STEP {
            ZOOM_MIN
        } else {
            self.zoom_percent - ZOOM_STEP
        };
    }

    /// Back to the default zoom.
    pub fn reset_zoom(&mut self)
        ensures
            final(self).zoom_percent == ZOOM_DEFAULT,
            final(self).dark_mode == old(self).dark_mode,
            final(self).show_toc == old(self).show_toc,
            final(self).recent_files@ == old(self).recent_files@,
            final(self).last_file == old(self).last_file,
    {
        self.zoom_percent = ZOOM_DEFAULT;
    }

    /// Carries out `cmd` on the preferences and tells whether they changed
    /// and must be saved.
    pub fn apply(&mut self, cmd: Command) -> (changed: bool)
        ensures
            changed == changes_settings(cmd),
            final(self).settings() == settings_after(old(self).settings(), cmd),
            final(self).recent_files@ == old(self).recent_files@,
            final(self).last_file == old(self).last_file,
    {
        match cmd {
            Command::ToggleTheme => {
                self.toggle_dark_mode();
                true
            },
            Command::ZoomIn => {
                self.zoom_in();
                true
            },
            Command::ZoomOut => {
                self.zoom_out();
                true
            },
            Command::ResetZoom => {
                self.reset_zoom();
                true
            },
            Command::ToggleToc => {
                self.toggle_toc();
                true
            },
            _ => false,
        }
    }
}

impl Default for AppConfig {
    fn default() -> (c: Self)
        ensures
            c.dark_mode,
            c.zoom_percent == ZOOM_DEFAULT,
            c.show_toc,
            c.recent_files@.len() == 0,
            c.last_file is None,
    {
        AppConfig {
            dark_mode: true,
            zoom_percent: ZOOM_DEFAULT,
            show_toc: true,
            recent_files: Vec::new(),
            last_file: None,
        }
    }
}

} // verus!
