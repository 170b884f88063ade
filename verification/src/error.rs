use vstd::prelude::*;

verus! {

/// Every failure the pipeline can report. Story-level failures (metadata,
/// archive download, package generation, I/O) abort the whole conversion;
/// `ChapterProcessingFailed` is recoverable and scoped to one chapter.
#[derive(Clone, Copy, Debug, PartialEq, Eq, Structural)]
pub enum AppError {
    AuthenticationFailed,
    NotLoggedIn,
    LogoutFailed,
    StoryNotFound(i32),
    MetadataFetchFailed,
    DownloadFailed,
    ChapterProcessingFailed,
    EpubGenerationFailed,
    IoError,
}

impl AppError {
    /// A human-readable description of the failure.
    pub fn message(&self) -> (r: &'static str)
        ensures
            r@ == self.spec_message(),
    {
        match self {
            AppError::AuthenticationFailed => "Authentication failed: invalid username or password",
            AppError::NotLoggedIn => "User is not logged in",
            AppError::LogoutFailed => "Failed to log out",
            AppError::StoryNotFound(_) => "Story with the given ID could not be found",
            AppError::MetadataFetchFailed => "Failed to fetch story metadata",
            AppError::DownloadFailed => "Failed to download story content",
            AppError::ChapterProcessingFailed => "Failed to process chapter content",
            AppError::EpubGenerationFailed => "Failed to generate the EPUB file",
            AppError::IoError => "An I/O error occurred",
        }
    }

    pub open spec fn spec_message(&self) -> Seq<char> {
        match self {
            AppError::AuthenticationFailed => "Authentication failed: invalid username or password"@,
            AppError::NotLoggedIn => "User is not logged in"@,
            AppError::LogoutFailed => "Failed to log out"@,
            AppError::StoryNotFound(_) => "Story with the given ID could not be found"@,
            AppError::MetadataFetchFailed => "Failed to fetch story metadata"@,
            AppError::DownloadFailed => "Failed to download story content"@,
            AppError::ChapterProcessingFailed => "Failed to process chapter content"@,
            AppError::EpubGenerationFailed => "Failed to generate the EPUB file"@,
            AppError::IoError => "An I/O error occurred"@,
        }
    }
}

} // verus!
