//! Where the camera picture comes from, as chosen on the command line.

use vstd::prelude::*;

verus! {

/// The stream that `--url` without a value reads.
pub const DEFAULT_STREAM: &'static str = "https://10.0.0.7:8080/video";

/// A camera: a local webcam by its index, or a video stream by its URL.
#[derive(Debug)]
pub enum CameraConfig {
    Webcam(i32),
    Url(String),
}

/// The command-line arguments: `--webcam [index]` and `--url [address]`.
#[derive(Debug)]
pub struct Args {
    pub webcam: Option<i32>,
    pub url: Option<String>,
}

impl Args {
    /// The camera that the arguments choose: the URL if one is given, else
    /// the webcam with the given index, else webcam 0.
    pub fn camera_config(&self) -> (c: CameraConfig)
        ensures
            c == (match self.url {
                Some(u) => CameraConfig::Url(u),
                None => CameraConfig::Webcam(
                    match self.webcam {
                        Some(i) => i,
                        None => 0,
                    },
                ),
            }),
    {
        if let Some(url) = &self.url {
            CameraConfig::Url(url.clone())
        } else if let Some(idx) = self.webcam {
            CameraConfig::Webcam(idx)
        } else {
            CameraConfig::Webcam(0)
        }
    }
}

} // verus!
