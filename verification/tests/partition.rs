use port_sniffer::partition::{Worker, MAX_PORT};

fn ports_of(index: u16, count: u16) -> Vec<u16> {
    let mut worker = Worker::new(index, count).expect("index below count");
    let mut ports = Vec::new();
    while let Some(port) = worker.next_port() {
        ports.push(port);
    }
    ports
}

fn assert_exact_partition(count: u16) {
    let mut probes = vec![0u32; 65536];
    for index in 0..count {
        for port in ports_of(index, count) {
            probes[port as usize] += 1;
        }
    }
    assert_eq!(probes[0], 0, "port 0 is never probed");
    for port in 1..=65535usize {
        assert_eq!(probes[port], 1, "port {} with {} workers", port, count);
    }
}

#[test]
fn highest_port_is_65535() {
    assert_eq!(MAX_PORT, 65535);
}

#[test]
fn strides_partition_the_port_space() {
    let counts =
        [1u16, 2, 3, 4, 5, 7, 10, 64, 100, 255, 256, 1000, 4096, 32767, 32768, 65534, 65535];
    for count in counts {
        assert_exact_partition(count);
    }
}

#[test]
fn worker_probes_its_index_plus_one_then_every_nth_port() {
    let ports = ports_of(0, 4);
    assert_eq!(&ports[..4], &[1, 5, 9, 13]);
    let ports = ports_of(3, 4);
    assert_eq!(&ports[..4], &[4, 8, 12, 16]);
    let ports = ports_of(2, 1000);
    assert_eq!(&ports[..3], &[3, 1003, 2003]);
}

#[test]
fn stride_ends_at_the_largest_port_not_above_65535() {
    assert_eq!(ports_of(0, 4).last(), Some(&65533));
    assert_eq!(ports_of(1, 4).last(), Some(&65534));
    assert_eq!(ports_of(2, 4).last(), Some(&65535));
    assert_eq!(ports_of(3, 4).last(), Some(&65532));
    assert_eq!(ports_of(0, 1).last(), Some(&65535));
    assert_eq!(ports_of(534, 1000).last(), Some(&65535));
    assert_eq!(ports_of(535, 1000).last(), Some(&64536));
}

#[test]
fn strides_are_ascending() {
    for (index, count) in [(0u16, 1u16), (2, 3), (99, 100), (0, 65535)] {
        let ports = ports_of(index, count);
        assert!(ports.windows(2).all(|pair| pair[0] < pair[1]));
        assert!(ports.windows(2).all(|pair| pair[1] - pair[0] == count));
    }
}

#[test]
fn loads_are_near_equal() {
    assert_eq!(ports_of(0, 4).len(), 16384);
    assert_eq!(ports_of(1, 4).len(), 16384);
    assert_eq!(ports_of(2, 4).len(), 16384);
    assert_eq!(ports_of(3, 4).len(), 16383);
    for count in [3u16, 7, 100, 1000, 40000] {
        let loads: Vec<usize> = (0..count).map(|index| ports_of(index, count).len()).collect();
        let most = *loads.iter().max().unwrap();
        let least = *loads.iter().min().unwrap();
        assert!(most - least <= 1);
        assert!(loads.windows(2).all(|pair| pair[0] >= pair[1]));
        assert_eq!(loads.iter().sum::<usize>(), 65535);
    }
}

#[test]
fn partition_is_the_same_on_every_run() {
    for (index, count) in [(0u16, 1u16), (1, 4), (3, 4), (12, 500), (65534, 65535)] {
        assert_eq!(ports_of(index, count), ports_of(index, count));
    }
}

#[test]
fn single_worker_takes_all_ports() {
    let ports = ports_of(0, 1);
    assert_eq!(ports.len(), 65535);
    assert_eq!(ports, (1..=65535u16).collect::<Vec<u16>>());
}

#[test]
fn with_65535_workers_each_takes_one_port() {
    for index in 0..65535u16 {
        assert_eq!(ports_of(index, 65535), vec![index + 1]);
    }
}

#[test]
fn no_worker_outside_the_pool() {
    assert!(Worker::new(0, 0).is_none());
    assert!(Worker::new(4, 4).is_none());
    assert!(Worker::new(5, 4).is_none());
    assert!(Worker::new(65535, 65535).is_none());
    assert!(Worker::new(3, 4).is_some());
    assert!(Worker::new(65534, 65535).is_some());
}

#[test]
fn exhausted_worker_stays_exhausted() {
    let mut worker = Worker::new(65534, 65535).unwrap();
    assert_eq!(worker.next_port(), Some(65535));
    assert_eq!(worker.next_port(), None);
    assert_eq!(worker.next_port(), None);
}
