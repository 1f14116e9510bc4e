use databas::checksum::checksum_matches;
use databas::disk::DiskManager;
use databas::header::magic_bytes;
use databas::types::PAGE_SIZE;

#[test]
fn header_init_scenario() {
    let dm = DiskManager::open(Vec::new()).unwrap();
    assert_eq!(dm.page_count(), 1);
    let file = dm.into_file();
    assert_eq!(file.len(), PAGE_SIZE);

    let page0: Vec<u8> = file[..PAGE_SIZE].to_vec();
    assert_eq!(&page0[..16], magic_bytes().as_slice());
    assert!(checksum_matches(&page0));
}

#[test]
fn allocate_and_persist_scenario() {
    let file = {
        let mut dm = DiskManager::open(Vec::new()).unwrap();
        dm.new_page().unwrap();
        dm.new_page().unwrap();
        dm.new_page().unwrap();
        dm.into_file()
    };
    assert_eq!(file.len(), 4 * PAGE_SIZE);

    let dm = DiskManager::open(file).unwrap();
    assert_eq!(dm.page_count(), 4);
    for page_id in 1..4 {
        let page = dm.read_page(page_id).unwrap();
        assert!(checksum_matches(&page));
        assert!(page[..PAGE_SIZE - 4].iter().all(|b| *b == 0));
    }
}

#[test]
fn flipping_any_sampled_byte_breaks_the_checksum() {
    let mut dm = DiskManager::open(Vec::new()).unwrap();
    let page_id = dm.new_page().unwrap();
    let mut buf = vec![0u8; PAGE_SIZE];
    for (index, byte) in buf.iter_mut().enumerate() {
        *byte = (index % 251) as u8;
    }
    dm.write_page(page_id, &buf).unwrap();

    let offset = page_id as usize * PAGE_SIZE;
    for position in [0usize, 1, 17, 1024, PAGE_SIZE - 5, PAGE_SIZE - 1] {
        let mut file = dm.into_file();
        file[offset + position] ^= 0x01;
        let broken = DiskManager::open(file).unwrap();
        let err = broken.read_page(page_id).unwrap_err();
        assert!(matches!(
            err,
            databas::error::StorageError::InvalidPageChecksum(id) if id == page_id
        ));
        let mut file = broken.into_file();
        file[offset + position] ^= 0x01;
        dm = DiskManager::open(file).unwrap();
        assert!(dm.read_page(page_id).is_ok());
    }
}
