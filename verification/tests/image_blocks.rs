use srec::image::{Block, Image};

#[test]
fn new_returns_empty_image() {
    let i = Image::new();

    assert_eq!(i.blocks, vec![]);
}

#[test]
fn add_data_allocates_new_block() {
    let mut i = Image::new();

    i.add_data(0x00000000, &vec![0x11, 0x22, 0x33, 0x44]);

    assert_eq!(
        i.blocks,
        vec![Block {
            address: 0x00000000,
            data: vec![0x11, 0x22, 0x33, 0x44]
        }]
    );
}

#[test]
fn add_data_non_contiguous_after_allocates_new_block() {
    let mut i = Image::new();

    i.add_data(0x00000000, &vec![0x11, 0x22, 0x33, 0x44]);
    i.add_data(0x00000005, &vec![0x66, 0x77, 0x88, 0x99]);

    assert_eq!(
        i.blocks,
        vec![
            Block {
                address: 0x00000000,
                data: vec![0x11, 0x22, 0x33, 0x44]
            },
            Block {
                address: 0x00000005,
                data: vec![0x66, 0x77, 0x88, 0x99],
            }
        ]
    );
}

#[test]
fn add_data_non_contiguous_before_allocates_new_block() {
    let mut i = Image::new();

    i.add_data(0x00000005, &vec![0x66, 0x77, 0x88, 0x99]);
    i.add_data(0x00000000, &vec![0x11, 0x22, 0x33, 0x44]);

    assert_eq!(
        i.blocks,
        vec![
            Block {
                address: 0x00000000,
                data: vec![0x11, 0x22, 0x33, 0x44]
            },
            Block {
                address: 0x00000005,
                data: vec![0x66, 0x77, 0x88, 0x99],
            }
        ]
    );
}

#[test]
fn add_data_contiguous_after_merges_blocks() {
    let mut i = Image::new();

    i.add_data(0x00000000, &vec![0x11, 0x22, 0x33, 0x44]);
    i.add_data(0x00000004, &vec![0x55, 0x66, 0x77, 0x88]);

    assert_eq!(
        i.blocks,
        vec![Block {
            address: 0x00000000,
            data: vec![0x11, 0x22, 0x33, 0x44, 0x55, 0x66, 0x77, 0x88]
        }]
    );
}

#[test]
fn add_data_contiguous_before_merges_blocks() {
    let mut i = Image::new();

    i.add_data(0x00000004, &vec![0x55, 0x66, 0x77, 0x88]);
    i.add_data(0x00000000, &vec![0x11, 0x22, 0x33, 0x44]);

    assert_eq!(
        i.blocks,
        vec![Block {
            address: 0x00000000,
            data: vec![0x11, 0x22, 0x33, 0x44, 0x55, 0x66, 0x77, 0x88]
        }]
    );
}

#[test]
fn add_data_contiguous_middle_merges_blocks() {
    let mut i = Image::new();

    i.add_data(0x00000000, &vec![0x11, 0x22, 0x33, 0x44]);
    i.add_data(0x00000005, &vec![0x66, 0x77, 0x88, 0x99]);
    i.add_data(0x00000004, &vec![0x55]);

    assert_eq!(
        i.blocks,
        vec![Block {
            address: 0x00000000,
            data: vec![0x11, 0x22, 0x33, 0x44, 0x55, 0x66, 0x77, 0x88, 0x99]
        }]
    );
}

#[test]
fn add_data_empty_write_leaves_image_unchanged() {
    let mut i = Image::new();

    i.add_data(0x00000000, &vec![0x11, 0x22]);
    i.add_data(0x00000010, &vec![]);

    assert_eq!(
        i.blocks,
        vec![Block {
            address: 0x00000000,
            data: vec![0x11, 0x22]
        }]
    );
}
