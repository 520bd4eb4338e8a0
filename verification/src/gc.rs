//! What the garbage collection of a composefs image store decides.
//!
//! A deployment is named by the fs-verity digest of its image. It has a
//! bootloader entry, an image and a state directory. Deleting one may stop
//! half way; the collection finds what such a stop left behind. Listing and
//! deleting is the caller's work: the functions here say what to delete.

use vstd::prelude::*;
use vstd::string::StringExecFns;

verus! {

/// The bootloader of the system.
#[derive(Clone, Copy, Debug, PartialEq, Eq, Structural)]
pub enum Bootloader {
    Grub,
    Systemd,
}

/// Where the boot entries of the deployments are listed.
#[derive(Clone, Copy, Debug, PartialEq, Eq, Structural)]
pub enum BootEntrySource {
    /// The menu entries of GRUB's user configuration, one per UKI.
    GrubUki,
    /// The Type 1 entry files of the boot loader specification.
    Type1,
}

/// Where to look for boot entries: GRUB with a user configuration lists
/// UKIs there; GRUB without one and systemd-boot use Type 1 entries.
pub fn boot_entry_source(bootloader: Bootloader, has_user_cfg: bool) -> (r: BootEntrySource)
    ensures
        r == (if bootloader == Bootloader::Grub && has_user_cfg {
            BootEntrySource::GrubUki
        } else {
            BootEntrySource::Type1
        }),
{
    match bootloader {
        Bootloader::Grub => {
            if has_user_cfg {
                BootEntrySource::GrubUki
            } else {
                BootEntrySource::Type1
            }
        },
        Bootloader::Systemd => BootEntrySource::Type1,
    }
}

/// One step of a cleanup.
#[derive(Debug, PartialEq, Eq)]
pub enum GcAction {
    /// Delete the staged deployment, if there is one.
    DeleteStaged,
    /// Delete the image with this digest.
    DeleteImage(String),
    /// Delete the state directory of the deployment with this digest.
    DeleteStateDir(String),
}

/// A step of a cleanup as plain values.
pub enum GcActionView {
    DeleteStaged,
    DeleteImage(Seq<char>),
    DeleteStateDir(Seq<char>),
}

impl View for GcAction {
    type V = GcActionView;

    open spec fn view(&self) -> GcActionView {
        match self {
            GcAction::DeleteStaged => GcActionView::DeleteStaged,
            GcAction::DeleteImage(v) => GcActionView::DeleteImage(v@),
            GcAction::DeleteStateDir(v) => GcActionView::DeleteStateDir(v@),
        }
    }
}

/// Why nothing may be cleaned up.
#[derive(Debug, PartialEq, Eq)]
pub enum GcError {
    /// The image of the booted deployment has no bootloader entry.
    BootedOrphaned { verity: String },
}

/// The message for a booted deployment found among the orphans.
pub open spec fn booted_orphaned_message(verity: Seq<char>) -> Seq<char> {
    "Inconsistent state. Booted entry '"@ + verity + "' found for cleanup"@
}

impl GcError {
    /// The message of this error.
    pub fn to_string(&self) -> (s: String)
        ensures
            self matches GcError::BootedOrphaned { verity } ==> s@ == booted_orphaned_message(
                verity@,
            ),
    {
        match self {
            GcError::BootedOrphaned { verity } => {
                let mut s = String::from_str("Inconsistent state. Booted entry '");
                s.append(verity.as_str());
                s.append("' found for cleanup");
                s
            },
        }
    }
}

/// The texts of a list of strings.
pub open spec fn texts(v: Seq<String>) -> Seq<Seq<char>> {
    Seq::new(v.len(), |i: int| v[i]@)
}

/// The steps of a list of actions, as plain values.
pub open spec fn action_views(v: Seq<GcAction>) -> Seq<GcActionView> {
    Seq::new(v.len(), |i: int| v[i]@)
}

/// Those of `items` that are not among `known`, in the order of `items`.
pub open spec fn unknown(items: Seq<Seq<char>>, known: Seq<Seq<char>>) -> Seq<Seq<char>> {
    items.filter(|item: Seq<char>| !known.contains(item))
}

/// For each orphaned image, in order: delete the staged deployment, the
/// image, and its state directory.
pub open spec fn image_cleanup(orphans: Seq<Seq<char>>) -> Seq<GcActionView> {
    Seq::new(
        3 * orphans.len(),
        |i: int|
            if i % 3 == 0 {
                GcActionView::DeleteStaged
            } else if i % 3 == 1 {
                GcActionView::DeleteImage(orphans[i / 3])
            } else {
                GcActionView::DeleteStateDir(orphans[i / 3])
            },
    )
}

/// For each stale state directory, in order: delete the staged deployment
/// and the state directory.
pub open spec fn state_cleanup(stale: Seq<Seq<char>>) -> Seq<GcActionView> {
    Seq::new(
        2 * stale.len(),
        |i: int|
            if i % 2 == 0 {
                GcActionView::DeleteStaged
            } else {
                GcActionView::DeleteStateDir(stale[i / 2])
            },
    )
}

/// Tells whether `item` is in `list`.
pub fn contains(list: &Vec<String>, item: &String) -> (r: bool)
    ensures
        r == texts(list@).contains(item@),
{
    let mut i: usize = 0;
    while i < list.len()
        invariant
            i <= list@.len(),
            forall|j: int| 0 <= j < i ==> texts(list@)[j] != item@,
        decreases list.len() - i,
    {
        if list[i] == *item {
            assert(texts(list@)[i as int] == item@);
            return true;
        }
        i = i + 1;
    }
    false
}

/// Those of `items` that are not among `known`, in the order of `items`.
pub fn not_among(items: &Vec<String>, known: &Vec<String>) -> (r: Vec<String>)
    ensures
        texts(r@) == unknown(texts(items@), texts(known@)),
{
    let ghost all = texts(items@);
    let ghost pred = |item: Seq<char>| !texts(known@).contains(item);
    let mut out: Vec<String> = Vec::new();
    let mut i: usize = 0;
    proof {
        reveal(Seq::filter);
        assert(all.take(0).filter(pred) =~= Seq::<Seq<char>>::empty());
        assert(texts(out@) =~= Seq::<Seq<char>>::empty());
    }
    while i < items.len()
        invariant
            i <= items@.len(),
            all == texts(items@),
            pred == (|item: Seq<char>| !texts(known@).contains(item)),
            texts(out@) == all.take(i as int).filter(pred),
        decreases items.len() - i,
    {
        proof {
            assert(all.take(i + 1) =~= all.take(i as int).push(all[i as int]));
            Seq::lemma_filter_push(all.take(i as int), all[i as int], pred);
        }
        if !contains(known, &items[i]) {
            let copy = items[i].clone();
            proof {
                assert(texts(out@.push(copy)) =~= texts(out@).push(all[i as int]));
            }
            out.push(copy);
        }
        i = i + 1;
    }
    proof {
        assert(all.take(i as int) =~= all);
    }
    out
}

/// What to delete for the images that no bootloader entry refers to.
///
/// Nothing may be deleted if the booted deployment's own image is among
/// them: that state is inconsistent.
pub fn image_cleanup_plan(
    images: &Vec<String>,
    bootloader_entries: &Vec<String>,
    booted: &String,
) -> (r: Result<Vec<GcAction>, GcError>)
    ensures
        r is Err <==> unknown(texts(images@), texts(bootloader_entries@)).contains(booted@),
        r matches Err(e) ==> e == (GcError::BootedOrphaned { verity: *booted }),
        r matches Ok(plan) ==> action_views(plan@) == image_cleanup(
            unknown(texts(images@), texts(bootloader_entries@)),
        ),
{
    let orphans = not_among(images, bootloader_entries);
    if contains(&orphans, booted) {
        return Err(GcError::BootedOrphaned { verity: booted.clone() });
    }
    let ghost names = texts(orphans@);
    let mut plan: Vec<GcAction> = Vec::new();
    let mut i: usize = 0;
    while i < orphans.len()
        invariant
            i <= orphans@.len(),
            names == texts(orphans@),
            action_views(plan@) =~= image_cleanup(names.take(i as int)),
        decreases orphans.len() - i,
    {
        let ghost before = action_views(plan@);
        assert(names.take(i as int).len() == i);
        assert(before.len() == 3 * i);
        plan.push(GcAction::DeleteStaged);
        plan.push(GcAction::DeleteImage(orphans[i].clone()));
        plan.push(GcAction::DeleteStateDir(orphans[i].clone()));
        proof {
            let next = image_cleanup(names.take(i + 1));
            assert(names.take(i + 1).len() == i + 1);
            assert(action_views(plan@).len() == next.len());
            assert forall|k: int| 0 <= k < next.len() implies action_views(plan@)[k] == next[k] by {
                if k < 3 * i {
                    assert(action_views(plan@)[k] == before[k]);
                    assert(names.take(i + 1)[k / 3] == names.take(i as int)[k / 3]);
                } else {
                    assert(k / 3 == i);
                    assert(names.take(i + 1)[k / 3] == names[i as int]);
                }
            }
        }
        i = i + 1;
    }
    proof {
        assert(names.take(i as int) =~= names);
    }
    Ok(plan)
}

/// What to delete for the state directories that have no image: what a
/// collection leaves that was stopped after it had deleted the image.
pub fn state_cleanup_plan(state_dirs: &Vec<String>, images: &Vec<String>) -> (plan: Vec<GcAction>)
    ensures
        action_views(plan@) == state_cleanup(unknown(texts(state_dirs@), texts(images@))),
{
    let stale = not_among(state_dirs, images);
    let ghost names = texts(stale@);
    let mut plan: Vec<GcAction> = Vec::new();
    let mut i: usize = 0;
    while i < stale.len()
        invariant
            i <= stale@.len(),
            names == texts(stale@),
            action_views(plan@) =~= state_cleanup(names.take(i as int)),
        decreases stale.len() - i,
    {
        let ghost before = action_views(plan@);
        assert(names.take(i as int).len() == i);
        assert(before.len() == 2 * i);
        plan.push(GcAction::DeleteStaged);
        plan.push(GcAction::DeleteStateDir(stale[i].clone()));
        proof {
            let next = state_cleanup(names.take(i + 1));
            assert(names.take(i + 1).len() == i + 1);
            assert(action_views(plan@).len() == next.len());
            assert forall|k: int| 0 <= k < next.len() implies action_views(plan@)[k] == next[k] by {
                if k < 2 * i {
                    assert(action_views(plan@)[k] == before[k]);
                    assert(names.take(i + 1)[k / 2] == names.take(i as int)[k / 2]);
                } else {
                    assert(k / 2 == i);
                    assert(names.take(i + 1)[k / 2] == names[i as int]);
                }
            }
        }
        i = i + 1;
    }
    proof {
        assert(names.take(i as int) =~= names);
    }
    plan
}

/// The name of the stream that holds the OCI configuration with this digest.
pub open spec fn config_stream(digest: Seq<char>) -> Seq<char> {
    "oci-config-"@ + digest
}

/// What the collection of objects must keep besides what the remaining
/// images refer to: the booted image and the stream of its OCI
/// configuration.
pub fn additional_roots(booted: &str, config_digest: &str) -> (roots: Vec<String>)
    ensures
        texts(roots@) == seq![booted@, config_stream(config_digest@)],
{
    let mut stream = String::from_str("oci-config-");
    stream.append(config_digest);
    let mut roots: Vec<String> = Vec::new();
    roots.push(String::from_str(booted));
    roots.push(stream);
    assert(texts(roots@) =~= seq![booted@, config_stream(config_digest@)]);
    roots
}

} // verus!
