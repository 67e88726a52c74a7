//! What the windows show, and what their buttons do.

use vstd::prelude::*;

use crate::model::{attention, freshness_of, lemma_attention, time_ago, SyncModel, State};
use crate::proto::Drift;
use crate::text::{decimal, decimal_text};
use crate::views::review::{is_selected, OutcomeBanner, ReviewState};

pub mod dashboard;
pub mod merge;
pub mod review;
pub mod settings;

verus! {

/// What the window shows.
#[derive(Debug, Clone, Copy, PartialEq, Eq)]
pub enum Route {
    Dashboard,
    Review,
    Settings,
    /// The merge editor. It is entered from the review, and left by saving or cancelling.
    Merge,
    /// One component by itself.
    Component(&'static str),
}

/// How something stands.
#[derive(Debug, Clone, Copy, PartialEq, Eq, Structural)]
pub enum StatusTone {
    Fine,
    Drift,
    Conflict,
    Muted,
}

/// The badge beside the review: how many files need a decision, or else how many have drifted.
pub open spec fn badge_of(s: State) -> Option<(nat, StatusTone)> {
    let n = attention(s.drifted, s.drifted.len() as int);
    if n > 0 {
        Some((n, StatusTone::Conflict))
    } else if s.drifted.len() > 0 {
        Some((s.drifted.len(), StatusTone::Drift))
    } else {
        None
    }
}

/// The badge beside the review.
pub fn review_badge(model: &SyncModel) -> (r: Option<(String, StatusTone)>)
    ensures
        match r {
            Some((text, tone)) => badge_of(model@) matches Some((n, t)) && text@ == decimal(n)
                && tone == t,
            None => badge_of(model@) is None,
        },
{
    let n: usize = model.needs_attention();
    let drifted: usize = model.drifted.len();
    assert(model@.drifted.len() == drifted);
    if n > 0 {
        Some((decimal_text(n as u64), StatusTone::Conflict))
    } else if drifted > 0 {
        Some((decimal_text(drifted as u64), StatusTone::Drift))
    } else {
        None
    }
}

/// How things stand: without a daemon nothing is known; then what is under way, what cannot be
/// evaluated, and what has drifted, in this order.
pub open spec fn footer_of(s: State) -> (StatusTone, Seq<char>) {
    if !s.connected {
        (StatusTone::Conflict, "daemon not connected"@)
    } else if s.scanning {
        (StatusTone::Drift, "scanning…"@)
    } else {
        match s.degraded {
            Some(hint) => (StatusTone::Drift, hint),
            None => if s.drifted.len() > 0 {
                (StatusTone::Drift, decimal(s.drifted.len()) + " drifted"@)
            } else {
                (StatusTone::Fine, "in sync · "@ + decimal(s.in_sync as nat) + " files"@)
            },
        }
    }
}

/// How things stand, in a line.
pub fn footer_status(model: &SyncModel) -> (r: (StatusTone, String))
    ensures
        (r.0, r.1@) == footer_of(model@),
{
    let drifted: usize = model.drifted.len();
    assert(model@.drifted.len() == drifted);
    if !model.connected {
        return (StatusTone::Conflict, "daemon not connected".to_owned());
    }
    if model.scanning {
        return (StatusTone::Drift, "scanning…".to_owned());
    }
    match &model.degraded {
        Some(hint) => (StatusTone::Drift, hint.clone()),
        None => {
            if drifted > 0 {
                let mut s = decimal_text(drifted as u64);
                s.append(" drifted");
                (StatusTone::Drift, s)
            } else {
                let mut s = "in sync · ".to_owned();
                s.append(decimal_text(model.in_sync).as_str());
                s.append(" files");
                (StatusTone::Fine, s)
            }
        },
    }
}

/// How fresh the state of the remote is, in a line.
pub fn footer_freshness(model: &SyncModel, now: u64) -> (r: String)
    ensures
        r@ == freshness_of(model@, now),
{
    match model.last_fetch_ts {
        Some(ts) => {
            let mut s = "origin: fetched ".to_owned();
            s.append(time_ago(now, ts).as_str());
            s
        },
        None => "origin: never fetched".to_owned(),
    }
}

/// A window: what it shows, and what lives as long as it does.
#[derive(Debug)]
pub struct Shell {
    pub route: Route,
    pub review: Option<ReviewState>,
    /// An action of the dashboard is under way.
    pub dashboard_action_in_flight: bool,
    /// A request to unlock the secrets is under way.
    pub unlock_in_flight: bool,
}

/// A review in which nothing was selected or done.
pub open spec fn is_blank(v: ReviewState) -> bool {
    &&& v.selected is None
    &&& v.preview is Empty
    &&& v.provenance@.len() == 0
    &&& v.auto_merge is None
    &&& v.last_outcome is None
    &&& !v.action_in_flight
}

impl Shell {
    pub fn new(route: Route) -> (r: Self)
        ensures
            r.route == route,
            r.review is None,
            !r.dashboard_action_in_flight,
            !r.unlock_in_flight,
    {
        Shell {
            route,
            review: None,
            dashboard_action_in_flight: false,
            unlock_in_flight: false,
        }
    }

    fn take_review(&mut self) -> (r: ReviewState)
        ensures
            final(self).review is None,
            final(self).route == old(self).route,
            final(self).dashboard_action_in_flight == old(self).dashboard_action_in_flight,
            final(self).unlock_in_flight == old(self).unlock_in_flight,
            match old(self).review {
                Some(v) => r == v,
                None => is_blank(r),
            },
    {
        match self.review.take() {
            Some(v) => v,
            None => ReviewState::new(),
        }
    }

    /// Goes to the review, and selects a file if there is one to select. The review is kept as
    /// it was otherwise.
    pub fn open_review(&mut self, target: Option<&str>)
        ensures
            *final(self) == (Shell {
                route: Route::Review,
                review: final(self).review,
                ..*old(self)
            }),
            final(self).review matches Some(v) && match target {
                Some(t) => {
                    &&& v.selected matches Some(s) && s@ == t@
                    &&& v.preview is Loading
                    &&& v.provenance@.len() == 0
                    &&& v.auto_merge is None
                    &&& match old(self).review {
                        Some(w) => {
                            &&& v.action_in_flight == w.action_in_flight
                            &&& v.last_outcome == (if is_selected(w.selected, t@) {
                                w.last_outcome
                            } else {
                                None
                            })
                        },
                        None => !v.action_in_flight && v.last_outcome is None,
                    }
                },
                None => match old(self).review {
                    Some(w) => v == w,
                    None => is_blank(v),
                },
            },
    {
        let mut review = self.take_review();
        match target {
            Some(t) => {
                review.select(t);
            },
            None => {},
        }
        self.review = Some(review);
        self.route = Route::Review;
    }

    /// Goes to the merge editor.
    pub fn open_merge(&mut self)
        ensures
            *final(self) == (Shell { route: Route::Merge, ..*old(self) }),
    {
        self.route = Route::Merge;
    }

    /// Goes back to the review after a merge was saved, tells there what came of it, and gives
    /// the selected file, which is to be loaded again.
    pub fn merge_done(&mut self, banner: OutcomeBanner) -> (r: Option<String>)
        ensures
            *final(self) == (Shell {
                route: Route::Review,
                review: final(self).review,
                ..*old(self)
            }),
            final(self).review matches Some(v) && v.last_outcome == Some(banner),
            final(self).review->Some_0.action_in_flight == (old(self).review matches Some(w)
                && w.action_in_flight),
            match old(self).review {
                Some(v) => crate::views::review::reloads(
                    v,
                    final(self).review->Some_0,
                    r,
                    v.selected is Some,
                ),
                None => r is None && is_blank(
                    ReviewState { last_outcome: None, ..final(self).review->Some_0 },
                ),
            },
            old(self).review matches Some(v) ==> (v.selected matches Some(s)
                ==> final(self).review->Some_0.selected matches Some(t) && t@ == s@),
    {
        let mut review = self.take_review();
        review.last_outcome = Some(banner);
        let again = review.reselect();
        self.review = Some(review);
        self.route = Route::Review;
        again
    }
}

/// The badge counts what needs somebody, or else what has drifted; it is gone exactly where
/// nothing has. The footer says that all is well exactly where the daemon is there, no scan
/// runs, nothing is degraded and nothing has drifted.
pub proof fn law_the_badge_and_the_footer_agree(s: State)
    ensures
        ({
            let n = s.drifted.filter(
                |x: Drift|
                    x.class == "conflict"@ || x.class == "local_source_diverged"@ || x.class
                        == "eval_failed"@,
            ).len();
            &&& badge_of(s) is None <==> s.drifted.len() == 0
            &&& n > 0 ==> badge_of(s) == Some((n, StatusTone::Conflict))
            &&& n == 0 && s.drifted.len() > 0 ==> badge_of(s) == Some(
                (s.drifted.len(), StatusTone::Drift),
            )
        }),
        footer_of(s).0 == StatusTone::Fine <==> s.connected && !s.scanning && s.degraded is None
            && s.drifted.len() == 0,
        footer_of(s).0 == StatusTone::Conflict <==> !s.connected,
        s.connected && !s.scanning ==> (s.degraded matches Some(hint) ==> footer_of(s).1 == hint),
{
    lemma_attention(s.drifted, s.drifted.len() as int);
    assert(s.drifted.take(s.drifted.len() as int) =~= s.drifted);
    reveal(Seq::filter);
}

} // verus!
