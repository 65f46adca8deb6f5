use oakum::branch::{Branch, IVec3};
use oakum::dynamic::DynamicOctree;
use oakum::mirror::{DrawOctree, Upload};
use oakum::node::Node;
use oakum::segment::Segment;

fn small() -> DrawOctree {
    DrawOctree {
        page_width: 4,
        page_height: 4,
        page_count: 4,
    }
}

#[test]
fn page_upload_decomposition() {
    let layout = small();
    // Nodes 2..42: the end of a row, three rows, a page, two rows, half a row.
    let uploads = layout.write_segment(Segment::new(2, 40));
    assert_eq!(
        uploads,
        vec![
            Upload::Row { x: 2, row: 0, page: 0, offset: 16, size: 16 },
            Upload::Rows { row: 1, rows: 3, page: 0, offset: 32 },
            Upload::Pages { page: 1, pages: 1, offset: 128 },
            Upload::Rows { row: 0, rows: 2, page: 2, offset: 256 },
            Upload::Row { x: 0, row: 2, page: 2, offset: 320, size: 16 },
        ]
    );
    // No gaps: each write begins where the one before it ended.
    let sizes = [16u64, 3 * 32, 128, 2 * 32, 16];
    let mut at = 16u64;
    for (upload, size) in uploads.iter().zip(sizes) {
        let offset = match upload {
            Upload::Row { offset, .. } => *offset,
            Upload::Rows { offset, .. } => *offset,
            Upload::Pages { offset, .. } => *offset,
        };
        assert_eq!(offset, at);
        at += size;
    }
    assert_eq!(at, 42 * 8);
}

#[test]
fn a_range_inside_one_row_is_one_write() {
    let layout = small();
    assert_eq!(
        layout.write_segment(Segment::new(5, 2)),
        vec![Upload::Row { x: 1, row: 1, page: 0, offset: 40, size: 16 }]
    );
    assert_eq!(
        layout.write_segment(Segment::new(8, 3)),
        vec![Upload::Row { x: 0, row: 2, page: 0, offset: 64, size: 24 }]
    );
}

#[test]
fn whole_pages_go_in_one_write() {
    let layout = small();
    assert_eq!(
        layout.write_segment(Segment::new(16, 48)),
        vec![Upload::Pages { page: 1, pages: 3, offset: 128 }]
    );
    assert_eq!(
        layout.write_segment(Segment::new(0, 8)),
        vec![Upload::Rows { row: 0, rows: 2, page: 0, offset: 0 }]
    );
}

#[test]
fn rows_up_to_the_end_of_a_page_then_the_next_page() {
    let layout = small();
    assert_eq!(
        layout.write_segment(Segment::new(8, 12)),
        vec![
            Upload::Rows { row: 2, rows: 2, page: 0, offset: 64 },
            Upload::Rows { row: 0, rows: 1, page: 1, offset: 128 },
        ]
    );
    assert_eq!(
        layout.write_segment(Segment::new(7, 2)),
        vec![
            Upload::Row { x: 3, row: 1, page: 0, offset: 56, size: 8 },
            Upload::Row { x: 0, row: 2, page: 0, offset: 64, size: 8 },
        ]
    );
    assert_eq!(
        layout.write_segment(Segment::new(15, 2)),
        vec![
            Upload::Row { x: 3, row: 3, page: 0, offset: 120, size: 8 },
            Upload::Row { x: 0, row: 0, page: 1, offset: 128, size: 8 },
        ]
    );
}

#[test]
fn an_empty_range_at_the_start_of_a_row_is_no_write() {
    let layout = small();
    assert!(layout.write_segment(Segment::new(4, 0)).is_empty());
}

#[test]
fn sizes_of_the_texture() {
    let layout = DrawOctree::new();
    assert_eq!(DrawOctree::PAGE_SIZE, 4096);
    assert_eq!(layout.page_width, 4096);
    assert_eq!(layout.page_height, 1);
    assert_eq!(layout.page_count, 1);
    assert_eq!(layout.size(), 4096);
    assert_eq!(layout.byte_size(), 4096 * 8);
    assert_eq!(layout.page_size(), 4096);
    assert_eq!(layout.bytes_per_page(), 4096 * 8);
    assert_eq!(layout.bytes_per_row(), 4096 * 8);
    let layout = small();
    assert_eq!(layout.size(), 64);
    assert_eq!(layout.byte_size(), 512);
    assert_eq!(layout.page_size(), 16);
    assert_eq!(layout.bytes_per_page(), 128);
    assert_eq!(layout.bytes_per_row(), 32);
}

#[test]
fn resize_doubles_the_height_and_then_adds_pages() {
    let mut layout = DrawOctree::with_page_width(4);
    assert_eq!(layout.resize(4), None);
    assert_eq!(layout, DrawOctree { page_width: 4, page_height: 1, page_count: 1 });
    assert_eq!(layout.resize(5), Some((1, 1)));
    assert_eq!(layout, DrawOctree { page_width: 4, page_height: 2, page_count: 1 });
    assert_eq!(layout.resize(9), Some((2, 1)));
    assert_eq!(layout, DrawOctree { page_width: 4, page_height: 4, page_count: 1 });
    assert_eq!(layout.resize(33), Some((4, 1)));
    assert_eq!(layout, DrawOctree { page_width: 4, page_height: 4, page_count: 3 });
    assert_eq!(layout.resize(10), None);

    let mut layout = DrawOctree::new();
    assert_eq!(layout.resize(4096 * 4096 + 1), Some((1, 1)));
    assert_eq!(layout, DrawOctree { page_width: 4096, page_height: 4096, page_count: 2 });
}

#[test]
fn write_dynamic_cuts_every_recorded_range() {
    let layout = small();
    let mut octree = DynamicOctree::empty();
    octree.set(Branch::new(IVec3::new(0, 0, 0), 2), Node::solid(1, 2, 3));
    assert_eq!(octree.segments(), vec![Segment::new(0, 17)]);
    assert_eq!(
        layout.write_dynamic(&octree),
        vec![
            Upload::Pages { page: 0, pages: 1, offset: 0 },
            Upload::Row { x: 0, row: 0, page: 1, offset: 128, size: 8 },
        ]
    );
    octree.clear_segments();
    assert!(layout.write_dynamic(&octree).is_empty());
}
