//! Assembly of a notebook document: its pages, its tables as images, and the
//! files that the device expects.

pub mod bundle;
pub mod bundle_laws;
pub mod pages;
pub mod table_laws;
pub mod tables;

pub use bundle::{
    page_idx_label, page_images, plan_pages, Bundle, BundleImage, BundleOptions, BundlePage,
    BundlePaths, PagePaths, PagePlan,
};
pub use pages::{next_fence_state, split_on_hr};
pub use tables::{
    line_height_estimate, png_dimensions, strip_table_lines_with_heights, PageImageInput,
    PageInput,
};
