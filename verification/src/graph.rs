//! The parts of a network graph that are plain numbers.

use crate::shape::{Shape, Size};
use vstd::prelude::*;

verus! {

/// A value of a graph, by its number.
#[derive(Debug, Copy, Clone, PartialEq, Eq, Hash, Structural)]
pub struct Value(pub usize);

/// The sizes of a convolution.
#[derive(Debug, Copy, Clone)]
pub struct ConvDetails {
    pub input_channels: usize,
    pub output_channels: usize,
    pub input_size: usize,
    pub kernel_size: usize,
    pub padding: usize,
    pub output_size: usize,
    pub batch_size: Size,
}

impl ConvDetails {
    /// The shape of the filter: output channels, input channels, and the
    /// two sides of the kernel.
    pub fn kernel_shape(&self) -> (r: [usize; 4])
        ensures
            r@ == seq![
                self.output_channels,
                self.input_channels,
                self.kernel_size,
                self.kernel_size,
            ],
    {
        let r = [self.output_channels, self.input_channels, self.kernel_size, self.kernel_size];
        assert(r@ =~= seq![
            self.output_channels,
            self.input_channels,
            self.kernel_size,
            self.kernel_size,
        ]);
        r
    }
}

/// What a network that learns the rules says of itself.
#[derive(Debug, Clone)]
pub struct MuZeroNetworkInfo {
    pub game: String,
    pub state_channels: usize,
    pub state_channels_saved: usize,
    pub state_quant_bits: u8,
}

impl MuZeroNetworkInfo {
    /// The shape of the hidden state of a batch, for a board of the given
    /// width.
    pub fn state_shape(&self, board_size: usize) -> (r: Shape)
        ensures
            r@ == seq![
                Size::spec_batch(),
                Size::spec_fixed(self.state_channels as nat),
                Size::spec_fixed(board_size as nat),
                Size::spec_fixed(board_size as nat),
            ],
    {
        let mut dims: Vec<Size> = Vec::new();
        dims.push(Size::batch());
        dims.push(Size::fixed(self.state_channels));
        dims.push(Size::fixed(board_size));
        dims.push(Size::fixed(board_size));
        let r = Shape::new(dims);
        assert(r@ =~= seq![
            Size::spec_batch(),
            Size::spec_fixed(self.state_channels as nat),
            Size::spec_fixed(board_size as nat),
            Size::spec_fixed(board_size as nat),
        ]);
        r
    }

    /// The shape of the part of the hidden state of a batch that is kept.
    pub fn state_saved_shape(&self, board_size: usize) -> (r: Shape)
        ensures
            r@ == seq![
                Size::spec_batch(),
                Size::spec_fixed(self.state_channels_saved as nat),
                Size::spec_fixed(board_size as nat),
                Size::spec_fixed(board_size as nat),
            ],
    {
        let mut dims: Vec<Size> = Vec::new();
        dims.push(Size::batch());
        dims.push(Size::fixed(self.state_channels_saved));
        dims.push(Size::fixed(board_size));
        dims.push(Size::fixed(board_size));
        let r = Shape::new(dims);
        assert(r@ =~= seq![
            Size::spec_batch(),
            Size::spec_fixed(self.state_channels_saved as nat),
            Size::spec_fixed(board_size as nat),
            Size::spec_fixed(board_size as nat),
        ]);
        r
    }
}

} // verus!
