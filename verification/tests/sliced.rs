use red_mod::sliced::Job;

#[test]
fn test_packing() {
    println!("sizeof<Job> =         {}", std::mem::size_of::<Job>());
    let job = Job::new(0);
    drop(job);
}
