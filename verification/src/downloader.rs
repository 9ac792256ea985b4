use vstd::prelude::*;

verus! {

/// The lifecycle of one download job, as the surrounding application
/// tracks it.
#[derive(Clone, Copy, PartialEq, Eq, Structural, Debug)]
pub enum DownloadStatus {
    Pending,
    Downloading,
    Completed,
    Failed,
    Cancelled,
}

/// Whether a job in this state is finished, one way or another.
pub fn is_terminal(s: DownloadStatus) -> (r: bool)
    ensures
        r == (s == DownloadStatus::Completed || s == DownloadStatus::Failed || s
            == DownloadStatus::Cancelled),
{
    match s {
        DownloadStatus::Completed => true,
        DownloadStatus::Failed => true,
        DownloadStatus::Cancelled => true,
        _ => false,
    }
}

} // verus!
