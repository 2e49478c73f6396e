//! Tensor kernels with verified index logic: shape and stride algebra,
//! pooling, reductions, strided elementwise comparison and choice, the
//! patch extraction and batched products behind convolution, copy-on-write
//! buffers, the gradient tape and gradient map, and the bookkeeping that
//! pairs parameters with their gradients. The element
//! arithmetic is supplied by the caller as closures, so the kernels run on
//! any element type and their contracts say exactly which calls are made on
//! which elements.

pub mod conv2d;
pub mod elementwise;
pub mod gather;
pub mod gradients;
pub mod optim;
pub mod pool2d;
pub mod reduce;
pub mod shapes;
pub mod storage;
pub mod tape;
