//! Scrolling screenshots: frames of a scrolled view are stitched into one tall picture, with a
//! preview beside the region that is captured.
//!
//! `raster` holds images, `single` the arithmetic of single precision in which rows are compared.
//! `profile`, `overlap`, `signature`, `edges` and `search` find where a frame belongs, and
//! `stitch` puts it there; `subtitle` gathers the subtitles of a film instead. `preview`, `view`,
//! `pointer`, `canvas`, `drawing` and `surface` make up the preview and the box around the region.
//! `config`, `menu`, `color`, `notation`, `geometry` and `text` read what is asked for, `frame` and
//! `protocol` what the compositor tells, `codec` and `stream` turn pictures into files, and `session` and
//! `course` tie a capture together.
//!
//! The laws that hold of several of these at once stand apart: `scroll` of a page that is scrolled,
//! `film` of a film with subtitles, `brightness` of the levels and edges that frames are compared
//! by, `layout` and `artwork` of where the preview lies and what its pixels show, `capture` of
//! gestures and frames, `usage` of the command line and the steps of a capture, and `theme` of the
//! accent.

pub mod artwork;
pub mod brightness;
pub mod canvas;
pub mod capture;
pub mod codec;
pub mod color;
pub mod config;
pub mod course;
pub mod drawing;
pub mod edges;
pub mod film;
pub mod frame;
pub mod geometry;
pub mod layout;
pub mod menu;
pub mod notation;
pub mod overlap;
pub mod pointer;
pub mod preview;
pub mod profile;
pub mod protocol;
pub mod raster;
pub mod scroll;
pub mod search;
pub mod session;
pub mod signature;
pub mod single;
pub mod stitch;
pub mod stream;
pub mod subtitle;
pub mod surface;
pub mod text;
pub mod theme;
pub mod usage;
pub mod view;
