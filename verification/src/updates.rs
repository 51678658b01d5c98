//! Whether a newer release exists, and what to say once one was installed.
//!
//! Checking only reports; installing replaces binaries. The network work runs
//! elsewhere and hands its results here, which keeps the newer release the
//! header shows and decides the one message worth giving.
use vstd::prelude::*;
use crate::text::push_str;

verus! {

/// What a worker came back with.
#[derive(Debug)]
pub enum Done {
    /// A refreshed check: the latest release, when it is newer than this build.
    Checked(Option<String>),
    /// The silent update finished and replaced the binaries.
    Installed(String),
}

/// The newer release, when one is known.
pub struct Updates {
    latest: Option<String>,
}

pub open spec fn opt_view(o: Option<String>) -> Option<Seq<char>> {
    match o {
        Some(s) => Some(s@),
        None => None,
    }
}

/// The message an install is announced with.
pub open spec fn installed_message(to: Seq<char>) -> Seq<char> {
    "Updated to v"@ + to + " — restart thurbox to apply."@
}

/// What the newer release is once `done` is folded into `latest`, in order:
/// a check replaces it (with nothing, when it found nothing newer); an
/// install makes it the installed version.
pub open spec fn latest_after(latest: Option<Seq<char>>, done: Seq<Done>) -> Option<Seq<char>>
    decreases done.len(),
{
    if done.len() == 0 {
        latest
    } else {
        match done.last() {
            Done::Checked(l) => opt_view(l),
            Done::Installed(to) => Some(to@),
        }
    }
}

/// The message once `done` is folded in: the last install's, if any.
pub open spec fn message_after(done: Seq<Done>) -> Option<Seq<char>>
    decreases done.len(),
{
    if done.len() == 0 {
        None
    } else {
        match done.last() {
            Done::Installed(to) => Some(installed_message(to@)),
            Done::Checked(_) => message_after(done.drop_last()),
        }
    }
}

impl View for Updates {
    type V = Option<Seq<char>>;

    closed spec fn view(&self) -> Option<Seq<char>> {
        opt_view(self.latest)
    }
}

impl Updates {
    /// Nothing known yet.
    pub fn new() -> (u: Updates)
        ensures
            u@ is None,
    {
        Updates { latest: None }
    }

    /// What is known at start: the cached newer release, when checking is
    /// switched on; nothing otherwise.
    pub fn start(version_check: bool, cached: Option<String>) -> (u: Updates)
        ensures
            u@ == if version_check { opt_view(cached) } else { None },
    {
        if version_check {
            Updates { latest: cached }
        } else {
            Updates { latest: None }
        }
    }

    /// The newer release, when one is known.
    pub fn available(&self) -> (r: Option<&str>)
        ensures
            match self@ {
                Some(l) => r matches Some(s) && s@ == l,
                None => r is None,
            },
    {
        match &self.latest {
            Some(l) => Some(l.as_str()),
            None => None,
        }
    }

    /// Fold in what the workers finished, in order. The message is only ever
    /// the one that matters: binaries were replaced, and a restart applies
    /// them. A newer release found by a check is shown, not announced.
    pub fn poll(&mut self, done: Vec<Done>) -> (message: Option<String>)
        ensures
            final(self)@ == latest_after(old(self)@, done@),
            opt_view(message) == message_after(done@),
    {
        let mut message: Option<String> = None;
        let n = done.len();
        let mut i: usize = 0;
        let ghost all = done@;
        let mut rest = done;
        while i < n
            invariant
                i <= n,
                n == all.len(),
                rest@ == all.skip(i as int),
                self@ == latest_after(old(self)@, all.take(i as int)),
                opt_view(message) == message_after(all.take(i as int)),
            decreases n - i,
        {
            assert(rest@.len() == n - i);
            let d = rest.remove(0);
            proof {
                assert(d == all[i as int]);
                assert(rest@ =~= all.skip(i + 1));
                assert(all.take(i + 1).drop_last() =~= all.take(i as int));
                assert(all.take(i + 1).last() == d);
            }
            match d {
                Done::Checked(latest) => {
                    self.latest = latest;
                },
                Done::Installed(to) => {
                    let mut m = String::new();
                    proof {
                        reveal_strlit("Updated to v");
                        reveal_strlit(" — restart thurbox to apply.");
                    }
                    push_str(&mut m, "Updated to v");
                    push_str(&mut m, to.as_str());
                    push_str(&mut m, " — restart thurbox to apply.");
                    message = Some(m);
                    self.latest = Some(to);
                },
            }
            i += 1;
        }
        assert(all.take(i as int) =~= all);
        message
    }
}

/// Nothing is announced until something was installed: a run of finished
/// checks, however many, says nothing.
pub proof fn lemma_checks_are_not_announced(done: Seq<Done>)
    requires
        forall|i: int| 0 <= i < done.len() ==> #[trigger] done[i] is Checked,
    ensures
        message_after(done) is None,
    decreases done.len(),
{
    if done.len() > 0 {
        assert forall|i: int| 0 <= i < done.drop_last().len() implies #[trigger] done.drop_last()[i] is Checked by {
            assert(done.drop_last()[i] == done[i]);
        }
        lemma_checks_are_not_announced(done.drop_last());
    }
}

/// An install is always announced, with the version it installed, and the
/// badge then shows that version until a later check says otherwise.
pub proof fn lemma_an_install_is_announced(latest: Option<Seq<char>>, done: Seq<Done>, to: String)
    ensures
        message_after(done.push(Done::Installed(to))) == Some(installed_message(to@)),
        latest_after(latest, done.push(Done::Installed(to))) == Some(to@),
{
    assert(done.push(Done::Installed(to)).drop_last() =~= done);
}

} // verus!
