//! Hex color lists and square palette textures.

mod color;
mod parse;
mod texture;

pub use color::{Color, ColorError, ColorFault};
pub use parse::{
    chars_of, color_list, hex_byte, hex_digit, hex_pair, hex_value, is_space, is_space_char,
    lemma_bad_digit_rejected, lemma_well_formed_list_parses, lemma_wrong_length_rejected,
    names_color, parse_colors, parse_tokens, read_token, result_is, split_commas,
    split_commas_of, strip_hash, token_color, token_outcome, trim, trim_end, trim_start,
    well_formed_token, TokenOutcome,
};
pub use texture::{
    blank, ceil_sqrt, ceil_sqrt_from, generate_texture, grid_side, lemma_tile_placement,
    raster_pixels, raster_size, texture_pixel, texture_pixels, texture_side, tile_index,
    Texture,
};
