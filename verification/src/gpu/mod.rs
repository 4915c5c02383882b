//! Training on a GPU: data, file formats and the plans of what is dispatched.

pub mod backward;
pub mod dataloader;
pub mod forward;
pub mod kernels;
pub mod lora;
pub mod loss;
pub mod meaning;
pub mod optimizer;
pub mod plan;
pub mod training_loop;
pub mod weights;
