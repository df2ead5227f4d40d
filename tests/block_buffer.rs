use buddy_allocator::{BlockBuffer, BlockUser};

const BLOCK_SIZE: usize = 5;
const HALF_BLOCK_SIZE: usize = BLOCK_SIZE / 2;

pub struct Block;
impl BlockUser for Block {
    const BLOCK_SIZE: usize = 16;
}

#[test]
fn test_split_blocks() {
    const NUM_OF_BLOCKS: usize = 2;
    const TAIL_LEN_BYTES: usize = 2;

    let data = [0_u8; Block::BLOCK_SIZE * NUM_OF_BLOCKS + TAIL_LEN_BYTES];

    let (blocks, tail) = Block::split_blocks(&data);
    assert_eq!(blocks.len(), NUM_OF_BLOCKS);
    assert_eq!(tail.len(), TAIL_LEN_BYTES);

    let (blocks, tail) = Block::split_blocks(&data[..Block::BLOCK_SIZE * NUM_OF_BLOCKS]);
    assert_eq!(blocks.len(), NUM_OF_BLOCKS);
    assert_eq!(tail.len(), 0);

    let (blocks, tail) = Block::split_blocks(&data[..Block::BLOCK_SIZE * NUM_OF_BLOCKS - 1]);
    assert_eq!(blocks.len(), NUM_OF_BLOCKS - 1);
    assert_eq!(tail.len(), Block::BLOCK_SIZE - 1);
}

#[test]
fn test_buffer_content() {
    let data = [255; BLOCK_SIZE * 2];
    let mut reference = [0; BLOCK_SIZE];

    let mut buffer = BlockBuffer::<BLOCK_SIZE>::new();
    buffer.process_data(&data[..HALF_BLOCK_SIZE]);
    reference[..HALF_BLOCK_SIZE].fill(255);
    assert_eq!(buffer.get_pos(), HALF_BLOCK_SIZE);
    assert_eq!(buffer.get_buf(), reference.to_vec());

    buffer.process_data(&data[HALF_BLOCK_SIZE..][..BLOCK_SIZE - 1]);
    reference.fill(0);
    reference[..HALF_BLOCK_SIZE - 1].fill(255);
    assert_eq!(buffer.get_pos(), HALF_BLOCK_SIZE - 1);
    assert_eq!(buffer.get_buf(), reference.to_vec());

    buffer.process_data(&data[HALF_BLOCK_SIZE + BLOCK_SIZE - 1..]);
    reference.fill(0);
    assert_eq!(buffer.get_pos(), 0);
    assert_eq!(buffer.get_buf(), reference.to_vec());
}

#[test]
fn test_processor() {
    let data = [1_u8; BLOCK_SIZE + HALF_BLOCK_SIZE];

    let mut buffer = BlockBuffer::<BLOCK_SIZE>::new();
    let mut sum = 0;

    let blocks = buffer.process_data(&data[..HALF_BLOCK_SIZE]);
    sum += blocks.iter().fold(0, |s, block| s + block.iter().sum::<u8>());
    assert_eq!(sum, 0);

    let blocks = buffer.process_data(&data[HALF_BLOCK_SIZE..]);
    sum += blocks.iter().fold(0, |s, block| s + block.iter().sum::<u8>());
    assert_eq!(sum as usize, BLOCK_SIZE);
}

#[test]
fn blocks_come_out_in_stream_order() {
    let mut buffer = BlockBuffer::<4>::new();
    assert_eq!(buffer.get_remain(), 4);
    assert!(buffer.process_data(&[1, 2, 3]).is_empty());
    assert_eq!(buffer.get_remain(), 1);
    let blocks = buffer.process_data(&[4, 5, 6, 7, 8, 9, 10]);
    assert_eq!(blocks, vec![vec![1, 2, 3, 4], vec![5, 6, 7, 8]]);
    assert_eq!(buffer.get_pos(), 2);
    assert_eq!(buffer.get_buf(), vec![9, 10, 0, 0]);
    let blocks = buffer.process_data(&[11, 12]);
    assert_eq!(blocks, vec![vec![9, 10, 11, 12]]);
    assert_eq!(buffer.get_pos(), 0);
    assert_eq!(buffer.get_buf(), vec![0, 0, 0, 0]);
}

#[test]
fn split_blocks_keeps_the_bytes() {
    let data: Vec<u8> = (0..37).collect();
    let (blocks, tail) = Block::split_blocks(&data);
    assert_eq!(blocks, vec![(0..16).collect::<Vec<u8>>(), (16..32).collect::<Vec<u8>>()]);
    assert_eq!(tail, vec![32, 33, 34, 35, 36]);
    let (blocks, tail) = Block::split_blocks(&[]);
    assert!(blocks.is_empty());
    assert!(tail.is_empty());
}

#[test]
fn default_buffer_is_empty() {
    let buffer = BlockBuffer::<8>::default();
    assert_eq!(buffer.get_pos(), 0);
    assert_eq!(buffer.get_remain(), 8);
    assert_eq!(buffer.get_buf(), vec![0u8; 8]);
}
