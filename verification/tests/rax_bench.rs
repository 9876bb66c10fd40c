use red_mod::rax::Rax;
use stopwatch::Stopwatch;

#[test]
fn bench_rax_find() {
    for _ in 0..10 {
        let r = &mut Rax::<u64, &str>::new();
        for x in 0..2000 {
            r.insert_null(x).expect("whoops!");
        }

        match r.find(1601) {
            Some(v) => println!("{}", v),
            None => {}
        }
        assert!(r.find(1601).is_none());
        assert_eq!(r.find_exists(1601), (true, None));
        assert_eq!(r.size(), 2000);

        let sw = Stopwatch::start_new();

        for _po in 0..1000000 {
            r.find(1601);
        }

        println!("Thing took {}ms", sw.elapsed_ms());
    }
}

#[test]
fn bench_rax_insert() {
    for _ in 0..10 {
        let r = &mut Rax::<u64, &str>::new();

        let sw = Stopwatch::start_new();

        for x in 0..1000000 {
            r.insert(x, Box::new("")).expect("whoops!");
        }

        println!("Thing took {}ms", sw.elapsed_ms());
        println!("Size {}", r.size());
        assert_eq!(r.size(), 1000000);
    }
}

#[test]
fn bench_rax_insert_show() {
    let r = &mut Rax::<u64, &str>::new();

    let sw = Stopwatch::start_new();

    for x in 0..1000 {
        r.insert(x, Box::new("")).expect("whoops!");
    }

    println!("Thing took {}ms", sw.elapsed_ms());
    println!("Size {}", r.size());
    assert_eq!(r.size(), 1000);
}

#[test]
fn bench_rax_replace() {
    for _ in 0..10 {
        let r = &mut Rax::<u64, &str>::new();

        for x in 0..1000000 {
            r.insert(x, Box::new("")).expect("whoops!");
        }

        let sw = Stopwatch::start_new();

        for x in 0..1000000 {
            r.insert(x, Box::new("")).expect("whoops!");
        }

        println!("Thing took {}ms", sw.elapsed_ms());
        println!("Size {}", r.size());
        assert_eq!(r.size(), 1000000);
    }
}
